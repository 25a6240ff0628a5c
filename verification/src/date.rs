//! Calendar dates in the proleptic Gregorian calendar.
//!
//! Dates are plain year/month/day triples with a validity invariant.
//! Ordering and window arithmetic go through `day_number`, a strictly
//! increasing count of days since the first of January of year 1.

use vstd::prelude::*;
use vstd::string::StrSliceExecFns;
use crate::text::all_digits;
use crate::text::char_of_digit;
use crate::text::dec_val;
use crate::text::digit_val;
use crate::text::is_digit;
use crate::text::lemma_u32_string_val;
use crate::text::spec_u32_string;

verus! {

/// A calendar date. Valid dates satisfy [`Date::valid`].
#[derive(Clone, Copy, PartialEq, Eq, Structural, Debug)]
pub struct Date {
    pub year: u32,
    pub month: u32,
    pub day: u32,
}

pub open spec fn spec_is_leap_year(y: int) -> bool {
    (y % 4 == 0 && y % 100 != 0) || y % 400 == 0
}

pub open spec fn spec_days_in_month(y: int, m: int) -> int {
    if m == 2 {
        if spec_is_leap_year(y) { 29 } else { 28 }
    } else if m == 4 || m == 6 || m == 9 || m == 11 {
        30
    } else {
        31
    }
}

/// Days in the months `[1, m)` of year `y`.
pub open spec fn spec_days_before_month(y: int, m: int) -> int
    decreases m,
{
    if m <= 1 {
        0
    } else {
        spec_days_before_month(y, m - 1) + spec_days_in_month(y, m - 1)
    }
}

pub open spec fn spec_days_in_year(y: int) -> int {
    if spec_is_leap_year(y) { 366 } else { 365 }
}

/// Leap years in `[1, y)`.
pub open spec fn spec_leaps_before(y: int) -> int {
    (y - 1) / 4 - (y - 1) / 100 + (y - 1) / 400
}

/// Days from 0001-01-01 (day number 0) to the given date.
pub open spec fn spec_day_number(d: Date) -> int {
    (d.year - 1) * 365 + spec_leaps_before(d.year as int)
        + spec_days_before_month(d.year as int, d.month as int) + (d.day - 1)
}

impl Date {
    pub open spec fn valid(self) -> bool {
        1 <= self.year <= 9999 && 1 <= self.month <= 12 && 1 <= self.day
            <= spec_days_in_month(self.year as int, self.month as int)
    }

    pub fn new(year: u32, month: u32, day: u32) -> (r: Date)
        requires
            (Date { year, month, day }).valid(),
        ensures
            r == (Date { year, month, day }),
    {
        Date { year, month, day }
    }
}

pub fn is_leap_year(y: u32) -> (r: bool)
    ensures
        r == spec_is_leap_year(y as int),
{
    (y % 4 == 0 && y % 100 != 0) || y % 400 == 0
}

pub fn days_in_month(y: u32, m: u32) -> (r: u32)
    ensures
        r == spec_days_in_month(y as int, m as int),
{
    if m == 2 {
        if is_leap_year(y) { 29 } else { 28 }
    } else if m == 4 || m == 6 || m == 9 || m == 11 {
        30
    } else {
        31
    }
}

fn days_before_month(y: u32, m: u32) -> (r: u32)
    requires
        1 <= m <= 13,
    ensures
        r == spec_days_before_month(y as int, m as int),
{
    let mut acc: u32 = 0;
    let mut i: u32 = 1;
    while i < m
        invariant
            1 <= i <= m <= 13,
            acc == spec_days_before_month(y as int, i as int),
            acc <= 31 * (i - 1),
        decreases m - i,
    {
        acc = acc + days_in_month(y, i);
        i = i + 1;
    }
    acc
}

/// The day number of a valid date fits comfortably in `u32`.
pub proof fn lemma_day_number_bounds(d: Date)
    requires
        d.valid(),
    ensures
        0 <= spec_day_number(d) < 3_700_000,
{
    lemma_days_before_month_bounds(d.year as int, d.month as int);
}

proof fn lemma_days_before_month_bounds(y: int, m: int)
    requires
        1 <= m <= 13,
    ensures
        0 <= spec_days_before_month(y, m) <= 31 * (m - 1),
    decreases m,
{
    if m > 1 {
        lemma_days_before_month_bounds(y, m - 1);
    }
}

pub fn day_number(d: &Date) -> (r: u32)
    requires
        d.valid(),
    ensures
        r == spec_day_number(*d),
{
    proof {
        lemma_day_number_bounds(*d);
        lemma_days_before_month_bounds(d.year as int, d.month as int);
    }
    let y = d.year;
    (y - 1) * 365 + (y - 1) / 4 - (y - 1) / 100 + (y - 1) / 400
        + days_before_month(y, d.month) + (d.day - 1)
}

/// Counting leap years is stepwise: year `y` adds one day iff it is leap.
proof fn lemma_leaps_step(y: int)
    requires
        y >= 1,
    ensures
        spec_leaps_before(y + 1) == spec_leaps_before(y) + if spec_is_leap_year(y) {
            1int
        } else {
            0int
        },
{
    lemma_div_step(y, 4);
    lemma_div_step(y, 100);
    lemma_div_step(y, 400);
}

proof fn lemma_div_step(t: int, d: int)
    requires
        t >= 1,
        d >= 1,
    ensures
        t % d == 0 ==> t / d == (t - 1) / d + 1,
        t % d != 0 ==> t / d == (t - 1) / d,
{
    let q = t / d;
    let r = t % d;
    assert(t == q * d + r) by {
        vstd::arithmetic::div_mod::lemma_fundamental_div_mod(t, d);
    }
    if r == 0 {
        assert(t - 1 == (q - 1) * d + (d - 1)) by (nonlinear_arith)
            requires t == q * d && d >= 1;
        vstd::arithmetic::div_mod::lemma_fundamental_div_mod_converse(t - 1, d, q - 1, d - 1);
    } else {
        assert(t - 1 == q * d + (r - 1));
        vstd::arithmetic::div_mod::lemma_fundamental_div_mod_converse(t - 1, d, q, r - 1);
    }
}

/// The months of a year hold 365 days, or 366 in a leap year.
proof fn lemma_days_before_month_full(y: int)
    ensures
        spec_days_before_month(y, 13) == spec_days_in_year(y),
{
    reveal_with_fuel(spec_days_before_month, 14);
}

proof fn lemma_days_before_month_mono(y: int, m: int)
    requires
        1 <= m <= 13,
    ensures
        spec_days_before_month(y, m) <= spec_days_before_month(y, 13),
    decreases 13 - m,
{
    if m < 13 {
        lemma_days_before_month_mono(y, m + 1);
    }
}

proof fn lemma_leaps_mono(a: int, b: int)
    requires
        1 <= a <= b,
    ensures
        spec_leaps_before(a) <= spec_leaps_before(b),
    decreases b - a,
{
    if a < b {
        lemma_leaps_mono(a, b - 1);
        lemma_leaps_step(b - 1);
    }
}

/// The day number of the last representable date.
pub proof fn lemma_day_number_max_value()
    ensures
        spec_day_number(Date { year: 9999, month: 12, day: 31 }) == 3652058,
{
    reveal_with_fuel(spec_days_before_month, 14);
}

/// No valid date's day number exceeds the last representable date's.
pub proof fn lemma_day_number_le_max(d: Date)
    requires
        d.valid(),
    ensures
        spec_day_number(d) <= 3652058,
{
    let y = d.year as int;
    let m = d.month as int;
    lemma_days_before_month_bounds(y, m);
    lemma_days_before_month_mono(y, m + 1);
    lemma_days_before_month_full(y);
    assert(spec_days_before_month(y, m + 1) == spec_days_before_month(y, m)
        + spec_days_in_month(y, m));
    assert(spec_days_before_month(y, m) + (d.day - 1) <= spec_days_in_year(y) - 1);
    if y <= 9998 {
        lemma_leaps_mono(y, 9999);
        assert(spec_leaps_before(9999) == 2424);
        assert((y - 1) * 365 <= 9997 * 365) by (nonlinear_arith)
            requires
                y <= 9998,
        ;
    } else {
        assert(spec_leaps_before(9999) == 2424);
        assert(!spec_is_leap_year(9999));
    }
}

/// Successor of a valid date; day numbers advance by exactly one.
pub fn next_day(d: &Date) -> (r: Date)
    requires
        d.valid(),
        !(d.year == 9999 && d.month == 12 && d.day == 31),
    ensures
        r.valid(),
        spec_day_number(r) == spec_day_number(*d) + 1,
{
    let dim = days_in_month(d.year, d.month);
    if d.day < dim {
        Date { year: d.year, month: d.month, day: d.day + 1 }
    } else if d.month < 12 {
        Date { year: d.year, month: d.month + 1, day: 1 }
    } else {
        proof {
            lemma_days_before_month_full(d.year as int);
            lemma_leaps_step(d.year as int);
        }
        Date { year: d.year + 1, month: 1, day: 1 }
    }
}

/// Predecessor of a valid date; day numbers decrease by exactly one.
pub fn prev_day(d: &Date) -> (r: Date)
    requires
        d.valid(),
        !(d.year == 1 && d.month == 1 && d.day == 1),
    ensures
        r.valid(),
        spec_day_number(r) == spec_day_number(*d) - 1,
{
    if d.day > 1 {
        Date { year: d.year, month: d.month, day: d.day - 1 }
    } else if d.month > 1 {
        Date { year: d.year, month: d.month - 1, day: days_in_month(d.year, d.month - 1) }
    } else {
        proof {
            lemma_days_before_month_full((d.year - 1) as int);
            lemma_leaps_step((d.year - 1) as int);
        }
        Date { year: d.year - 1, month: 12, day: 31 }
    }
}

/// The date `n` days before `d`, as long as that stays at or after 0001-01-01.
pub fn sub_days(d: &Date, n: u32) -> (r: Date)
    requires
        d.valid(),
        n <= spec_day_number(*d),
    ensures
        r.valid(),
        spec_day_number(r) == spec_day_number(*d) - n,
{
    let mut cur = *d;
    let mut i: u32 = 0;
    while i < n
        invariant
            d.valid(),
            cur.valid(),
            i <= n <= spec_day_number(*d),
            spec_day_number(cur) == spec_day_number(*d) - i,
        decreases n - i,
    {
        proof {
            lemma_day_number_bounds(cur);
        }
        assert(!(cur.year == 1 && cur.month == 1 && cur.day == 1));
        cur = prev_day(&cur);
        i = i + 1;
    }
    cur
}

/// A run of `n` zero characters.
pub open spec fn zeros(n: int) -> Seq<char> {
    Seq::new(n as nat, |i: int| '0')
}

/// `s` zero-padded on the left to width `w` (or unchanged if longer).
pub open spec fn pad_to(s: Seq<char>, w: int) -> Seq<char> {
    if s.len() >= w {
        s
    } else {
        zeros(w - s.len()) + s
    }
}

/// The strict `YYYY-MM-DD` rendering of a date.
pub open spec fn spec_date_chars(d: Date) -> Seq<char> {
    pad_to(spec_u32_string(d.year as int), 4) + seq!['-'] + pad_to(
        spec_u32_string(d.month as int),
        2,
    ) + seq!['-'] + pad_to(spec_u32_string(d.day as int), 2)
}

/// What a strict `YYYY-MM-DD` text parses to: the date, if the shape
/// is exact and the date is a valid calendar date.
pub open spec fn spec_parse_date(s: Seq<char>) -> Option<Date> {
    if s.len() == 10 && is_digit(s[0]) && is_digit(s[1]) && is_digit(s[2]) && is_digit(s[3])
        && s[4] == '-' && is_digit(s[5]) && is_digit(s[6]) && s[7] == '-' && is_digit(s[8])
        && is_digit(s[9]) {
        let y = digit_val(s[0]) * 1000 + digit_val(s[1]) * 100 + digit_val(s[2]) * 10
            + digit_val(s[3]);
        let m = digit_val(s[5]) * 10 + digit_val(s[6]);
        let dd = digit_val(s[8]) * 10 + digit_val(s[9]);
        let date = Date { year: y as u32, month: m as u32, day: dd as u32 };
        if date.valid() {
            Some(date)
        } else {
            None
        }
    } else {
        None
    }
}

proof fn lemma_u32_string_len(n: int)
    requires
        0 <= n,
    ensures
        spec_u32_string(n).len() >= 1,
        n < 10 ==> spec_u32_string(n).len() == 1,
        n < 100 ==> spec_u32_string(n).len() <= 2,
        n < 1000 ==> spec_u32_string(n).len() <= 3,
        n < 10000 ==> spec_u32_string(n).len() <= 4,
    decreases n,
{
    if n >= 10 {
        lemma_u32_string_len(n / 10);
    }
}

proof fn lemma_dec_val_cons_zero(s: Seq<char>)
    ensures
        dec_val(seq!['0'] + s) == dec_val(s),
    decreases s.len(),
{
    if s.len() == 0 {
        assert(seq!['0'] + s =~= seq!['0']);
        assert((seq!['0']).drop_last() =~= Seq::<char>::empty());
        assert(dec_val(Seq::<char>::empty()) == 0);
        assert(dec_val(seq!['0']) == digit_val('0'));
    } else {
        lemma_dec_val_cons_zero(s.drop_last());
        assert((seq!['0'] + s).drop_last() =~= seq!['0'] + s.drop_last());
        assert((seq!['0'] + s).last() == s.last());
    }
}

/// Zero-padding does not change the number a digit run denotes.
proof fn lemma_pad_dec_val(s: Seq<char>, w: int)
    requires
        all_digits(s),
    ensures
        all_digits(pad_to(s, w)),
        dec_val(pad_to(s, w)) == dec_val(s),
        pad_to(s, w).len() >= w,
        pad_to(s, w).len() >= s.len(),
    decreases w,
{
    if s.len() < w {
        lemma_pad_dec_val(s, w - 1);
        assert(pad_to(s, w) =~= seq!['0'] + pad_to(s, w - 1));
        lemma_dec_val_cons_zero(pad_to(s, w - 1));
    }
}

proof fn lemma_dec_val2(t: Seq<char>)
    requires
        t.len() == 2,
    ensures
        dec_val(t) == digit_val(t[0]) * 10 + digit_val(t[1]),
{
    let t1 = t.drop_last();
    assert(t1.drop_last() =~= Seq::<char>::empty());
    assert(dec_val(Seq::<char>::empty()) == 0);
    assert(t1.last() == t[0]);
    assert(t.last() == t[1]);
    assert(dec_val(t1) == dec_val(t1.drop_last()) * 10 + digit_val(t1.last()));
    assert(dec_val(t) == dec_val(t1) * 10 + digit_val(t.last()));
}

proof fn lemma_dec_val4(t: Seq<char>)
    requires
        t.len() == 4,
    ensures
        dec_val(t) == digit_val(t[0]) * 1000 + digit_val(t[1]) * 100 + digit_val(t[2]) * 10
            + digit_val(t[3]),
{
    let t3 = t.drop_last();
    let t2 = t3.drop_last();
    lemma_dec_val2(t2);
    assert(t2[0] == t[0] && t2[1] == t[1]);
    assert(t3.last() == t[2]);
    assert(t.last() == t[3]);
    assert(dec_val(t3) == dec_val(t2) * 10 + digit_val(t3.last()));
    assert(dec_val(t) == dec_val(t3) * 10 + digit_val(t.last()));
}

/// The ten characters of a date: their exact values by position.
proof fn lemma_date_chars_shape(d: Date)
    requires
        d.valid(),
    ensures
        spec_date_chars(d).len() == 10,
        spec_parse_date(spec_date_chars(d)) == Some(d),
        forall|i: int| 0 <= i < 10 ==> #[trigger] spec_date_chars(d)[i] != '\n'
            && spec_date_chars(d)[i] != '\t',
{
    let y = spec_u32_string(d.year as int);
    let m = spec_u32_string(d.month as int);
    let dd = spec_u32_string(d.day as int);
    lemma_u32_string_val(d.year as int);
    lemma_u32_string_val(d.month as int);
    lemma_u32_string_val(d.day as int);
    lemma_u32_string_len(d.year as int);
    lemma_u32_string_len(d.month as int);
    lemma_u32_string_len(d.day as int);
    lemma_pad_dec_val(y, 4);
    lemma_pad_dec_val(m, 2);
    lemma_pad_dec_val(dd, 2);
    let py = pad_to(y, 4);
    let pm = pad_to(m, 2);
    let pd = pad_to(dd, 2);
    let s = spec_date_chars(d);
    assert(py.len() == 4 && pm.len() == 2 && pd.len() == 2);
    assert(s.len() == 10);
    assert(py =~= s.subrange(0, 4));
    assert(pm =~= s.subrange(5, 7));
    assert(pd =~= s.subrange(8, 10));
    assert(s[4] == '-' && s[7] == '-');
    lemma_dec_val4(s.subrange(0, 4));
    lemma_dec_val2(s.subrange(5, 7));
    lemma_dec_val2(s.subrange(8, 10));
    assert(forall|i: int| 0 <= i < 4 ==> is_digit(#[trigger] s[i]));
    assert(is_digit(s[5]) && is_digit(s[6]) && is_digit(s[8]) && is_digit(s[9]));
}

/// Rendering a valid date and parsing the text gives the date back.
pub proof fn lemma_date_round_trip(d: Date)
    requires
        d.valid(),
    ensures
        spec_parse_date(spec_date_chars(d)) == Some(d),
        spec_date_chars(d).len() == 10,
        forall|i: int| 0 <= i < 10 ==> #[trigger] spec_date_chars(d)[i] != '\n'
            && spec_date_chars(d)[i] != '\t',
{
    lemma_date_chars_shape(d);
}

fn push_padded(v: &mut Vec<char>, n: u32, w: usize)
    requires
        w <= 4,
        spec_u32_string(n as int).len() <= w,
    ensures
        final(v)@ == old(v)@ + pad_to(spec_u32_string(n as int), w as int),
{
    let ghost s = spec_u32_string(n as int);
    proof {
        lemma_u32_string_len(n as int);
    }
    let mut tmp: Vec<char> = Vec::new();
    crate::text::push_u32_chars(&mut tmp, n);
    assert(tmp@ =~= s);
    let mut k: usize = tmp.len();
    while k < w
        invariant
            s.len() <= k <= w <= 4,
            v@ == old(v)@ + zeros(k - s.len()),
            tmp@ == s,
        decreases w - k,
    {
        v.push('0');
        assert(v@ =~= old(v)@ + zeros(k + 1 - s.len()));
        k = k + 1;
    }
    let mut j: usize = 0;
    while j < tmp.len()
        invariant
            j <= tmp@.len(),
            tmp@ == s,
            s.len() <= w,
            v@ == old(v)@ + zeros(w - s.len()) + s.subrange(0, j as int),
        decreases tmp@.len() - j,
    {
        v.push(tmp[j]);
        assert(v@ =~= old(v)@ + zeros(w - s.len()) + s.subrange(0, j + 1));
        j = j + 1;
    }
    assert(s.subrange(0, s.len() as int) =~= s);
    if w == tmp.len() {
        assert(zeros(0) =~= Seq::<char>::empty());
        assert(pad_to(s, w as int) =~= s);
        assert(old(v)@ + zeros(w - s.len()) + s =~= old(v)@ + pad_to(s, w as int));
    } else {
        assert(pad_to(s, w as int) =~= zeros(w - s.len()) + s);
        assert(old(v)@ + zeros(w - s.len()) + s =~= old(v)@ + pad_to(s, w as int));
    }
}

/// Appends the `YYYY-MM-DD` rendering of a valid date.
pub fn push_date_chars(v: &mut Vec<char>, d: &Date)
    requires
        d.valid(),
    ensures
        final(v)@ == old(v)@ + spec_date_chars(*d),
{
    proof {
        lemma_u32_string_len(d.year as int);
        lemma_u32_string_len(d.month as int);
        lemma_u32_string_len(d.day as int);
    }
    push_padded(v, d.year, 4);
    v.push('-');
    push_padded(v, d.month, 2);
    v.push('-');
    push_padded(v, d.day, 2);
    assert(final(v)@ =~= old(v)@ + spec_date_chars(*d));
}

/// Parses `s[from..to]` as a strict `YYYY-MM-DD` date.
pub fn parse_date_range(s: &str, from: usize, to: usize) -> (r: Option<Date>)
    requires
        from <= to <= s@.len(),
    ensures
        r == spec_parse_date(s@.subrange(from as int, to as int)),
{
    let ghost t = s@.subrange(from as int, to as int);
    if to - from != 10 {
        return None;
    }
    let y = match crate::text::parse_u32_range(s, from, from + 4) {
        Some(y) => y,
        None => {
            proof {
                let ty = t.subrange(0, 4);
                assert(ty =~= s@.subrange(from as int, from + 4));
                if all_digits(ty) {
                    lemma_dec_val4(ty);
                }
            }
            return None;
        },
    };
    if s.get_char(from + 4) != '-' {
        return None;
    }
    let m = match crate::text::parse_u32_range(s, from + 5, from + 7) {
        Some(m) => m,
        None => {
            proof {
                let tm = t.subrange(5, 7);
                assert(tm =~= s@.subrange(from + 5, from + 7));
                if all_digits(tm) {
                    lemma_dec_val2(tm);
                }
            }
            return None;
        },
    };
    if s.get_char(from + 7) != '-' {
        return None;
    }
    let dd = match crate::text::parse_u32_range(s, from + 8, from + 10) {
        Some(dd) => dd,
        None => {
            proof {
                let td = t.subrange(8, 10);
                assert(td =~= s@.subrange(from + 8, from + 10));
                if all_digits(td) {
                    lemma_dec_val2(td);
                }
            }
            return None;
        },
    };
    proof {
        let ty = t.subrange(0, 4);
        let tm = t.subrange(5, 7);
        let td = t.subrange(8, 10);
        assert(ty =~= s@.subrange(from as int, from + 4));
        assert(tm =~= s@.subrange(from + 5, from + 7));
        assert(td =~= s@.subrange(from + 8, from + 10));
        lemma_dec_val4(ty);
        lemma_dec_val2(tm);
        lemma_dec_val2(td);
        crate::text::lemma_dec_val_nonneg(ty);
        crate::text::lemma_dec_val_nonneg(tm);
        crate::text::lemma_dec_val_nonneg(td);
    }
    let date = Date { year: y, month: m, day: dd };
    if date.month < 1 || date.month > 12 || date.year < 1 || date.day < 1
        || date.day > days_in_month(date.year, date.month) {
        return None;
    }
    Some(date)
}

} // verus!
