//! The report renderer: sparkline rows and rolling percentages as text.
//!
//! Each day of the rendered span maps a score to one of nine intensity
//! glyphs. A habit row is a fixed-width label, one glyph per day, and
//! the habit's rolling percentage (one decimal place) when the habit
//! has a periodicity target and a numeric range. The report opens with
//! an aggregate row over all habits and closes with a total-score line.

use vstd::prelude::*;
use vstd::string::StrSliceExecFns;
use crate::date::Date;
use crate::date::spec_day_number;
use crate::index::Group;
use crate::index::GroupV;
use crate::index::index_views;
use crate::model::Entry;
use crate::model::EntryV;
use crate::model::Habit;
use crate::model::HabitV;
use crate::model::entry_views;
use crate::model::habit_views;
use crate::score::spec_cap_sum;
use crate::score::spec_habit_items;
use crate::score::spec_ranges_product;
use crate::score::spec_scorable_count;
use crate::score::spec_window_sum;
use crate::score::index_dates_valid;
use crate::text::char_of_digit;
use crate::text::spec_u32_string;

verus! {

/// A run of `n` blanks.
pub open spec fn spec_spaces(n: int) -> Seq<char> {
    Seq::new(n as nat, |i: int| ' ')
}

/// The intensity bucket of the score `n / d`: `min(8, floor(9 n / d))`.
pub open spec fn spec_bucket(n: int, d: int) -> int {
    if 9 * n / d >= 8 {
        8
    } else {
        9 * n / d
    }
}

/// The glyph of an intensity bucket.
pub open spec fn spec_spark(b: int) -> char {
    if b <= 0 { ' ' }
    else if b == 1 { '\u{2581}' }
    else if b == 2 { '\u{2582}' }
    else if b == 3 { '\u{2583}' }
    else if b == 4 { '\u{2584}' }
    else if b == 5 { '\u{2585}' }
    else if b == 6 { '\u{2586}' }
    else if b == 7 { '\u{2587}' }
    else { '\u{2588}' }
}

fn exec_spark(b: u64) -> (c: char)
    ensures
        c == spec_spark(b as int),
{
    match b {
        0 => ' ',
        1 => '\u{2581}',
        2 => '\u{2582}',
        3 => '\u{2583}',
        4 => '\u{2584}',
        5 => '\u{2585}',
        6 => '\u{2586}',
        7 => '\u{2587}',
        _ => '\u{2588}',
    }
}

/// The glyph of the score `num / den`.
pub fn spark_of(num: u64, den: u64) -> (c: char)
    requires
        den >= 1,
    ensures
        c == spec_spark(spec_bucket(num as int, den as int)),
{
    let q = (9 as u128) * (num as u128) / (den as u128);
    if q >= 8 {
        exec_spark(8)
    } else {
        exec_spark(q as u64)
    }
}

/// The label column: the name right-padded or cut to 25 characters,
/// then one blank.
pub open spec fn spec_label(name: Seq<char>) -> Seq<char> {
    (if name.len() >= 25 {
        name.subrange(0, 25)
    } else {
        name + spec_spaces(25 - name.len())
    }) + seq![' ']
}

fn push_label(v: &mut Vec<char>, name: &String)
    ensures
        final(v)@ == old(v)@ + spec_label(name@),
{
    let s = name.as_str();
    let n = s.unicode_len();
    let w = if n >= 25 {
        25
    } else {
        n
    };
    let mut i: usize = 0;
    while i < w
        invariant
            w <= n == s@.len(),
            w <= 25,
            i <= w,
            v@ == old(v)@ + s@.subrange(0, i as int),
        decreases w - i,
    {
        v.push(s.get_char(i));
        assert(v@ =~= old(v)@ + s@.subrange(0, i + 1));
        i = i + 1;
    }
    let mut k: usize = w;
    while k < 25
        invariant
            w <= n == s@.len(),
            w <= 25,
            w <= k <= 25,
            v@ == old(v)@ + s@.subrange(0, w as int) + spec_spaces(k - w),
        decreases 25 - k,
    {
        v.push(' ');
        assert(v@ =~= old(v)@ + s@.subrange(0, w as int) + spec_spaces(k + 1 - w));
        k = k + 1;
    }
    v.push(' ');
    proof {
        if n >= 25 {
            assert(v@ =~= old(v)@ + spec_label(name@));
        } else {
            assert(s@.subrange(0, w as int) =~= s@);
            assert(v@ =~= old(v)@ + spec_label(name@));
        }
    }
}

/// The value of the first entry for this habit on this date, if any.
pub open spec fn spec_day_value(es: Seq<EntryV>, name: Seq<char>, d: Date) -> Option<u32>
    decreases es.len(),
{
    if es.len() == 0 {
        None
    } else if es[0].habit == name && es[0].date == d {
        Some(es[0].value)
    } else {
        spec_day_value(es.drop_first(), name, d)
    }
}

proof fn lemma_day_value_skip(es: Seq<EntryV>, name: Seq<char>, d: Date, k: int)
    requires
        0 <= k <= es.len(),
        forall|q: int| 0 <= q < k ==> !((#[trigger] es[q]).habit == name && es[q].date == d),
    ensures
        spec_day_value(es, name, d) == spec_day_value(
            es.subrange(k, es.len() as int),
            name,
            d,
        ),
    decreases k,
{
    if k > 0 {
        assert(es.subrange(1, es.len() as int) =~= es.drop_first());
        lemma_day_value_skip(es.drop_first(), name, d, k - 1);
        assert(es.drop_first().subrange(k - 1, es.drop_first().len() as int) =~= es.subrange(
            k,
            es.len() as int,
        ));
    } else {
        assert(es.subrange(0, es.len() as int) =~= es);
    }
}

/// Finds the first entry for this habit on this date.
pub fn day_value(entries: &Vec<Entry>, name: &String, d: &Date) -> (r: Option<u32>)
    ensures
        r == spec_day_value(entry_views(entries@), name@, *d),
{
    let ghost es = entry_views(entries@);
    let mut k: usize = 0;
    while k < entries.len()
        invariant
            es == entry_views(entries@),
            es.len() == entries@.len(),
            k <= es.len(),
            forall|q: int| 0 <= q < k ==> !((#[trigger] es[q]).habit == name@ && es[q].date == *d),
        decreases es.len() - k,
    {
        let e = &entries[k];
        if e.habit == *name && e.date.year == d.year && e.date.month == d.month && e.date.day
            == d.day {
            proof {
                lemma_day_value_skip(es, name@, *d, k as int);
                let rest = es.subrange(k as int, es.len() as int);
                assert(rest[0] == es[k as int]);
            }
            return Some(e.value);
        }
        k = k + 1;
    }
    proof {
        lemma_day_value_skip(es, name@, *d, k as int);
        assert(es.subrange(k as int, es.len() as int).len() == 0);
    }
    None
}

/// One day cell of a habit's row: the glyph of that day's score
/// (`value / range`; no entry or no numeric range scores zero).
pub open spec fn spec_habit_cell(h: HabitV, es: Seq<EntryV>, d: Date) -> char {
    match spec_day_value(es, h.name, d) {
        Some(v) => if h.range >= 1 {
            spec_spark(spec_bucket(v as int, h.range as int))
        } else {
            spec_spark(0)
        },
        None => spec_spark(0),
    }
}

/// Rounding a ratio to tenths, half away from zero: the percentage
/// `n / d` shown with one decimal place is `spec_tenths(n, d)` tenths.
pub open spec fn spec_tenths(n: int, d: int) -> int {
    (20 * n + d) / (2 * d)
}

/// The digits of a percentage: whole part, point, one decimal.
pub open spec fn spec_percent_chars(t: int) -> Seq<char> {
    spec_u32_string(t / 10) + seq!['.'] + seq![char_of_digit(t % 10)]
}

/// The percentage column: the percentage right-justified in six
/// characters, then a percent sign and a blank.
pub open spec fn spec_percent_field(n: int, d: int) -> Seq<char> {
    let p = spec_percent_chars(spec_tenths(n, d));
    (if p.len() >= 6 {
        p
    } else {
        spec_spaces(6 - p.len()) + p
    }) + seq!['%', ' ']
}

/// Appends the digits of the percentage `num / den`, one decimal.
fn push_percent_chars(v: &mut Vec<char>, num: u64, den: u64)
    requires
        den >= 1,
    ensures
        final(v)@ == old(v)@ + spec_percent_chars(spec_tenths(num as int, den as int)),
{
    let t = ((20 as u128) * (num as u128) + (den as u128)) / (2 * (den as u128));
    proof {
        assert(t == spec_tenths(num as int, den as int));
    }
    crate::text::push_dec_chars(v, t / 10);
    v.push('.');
    v.push(crate::text::exec_char_of_digit((t % 10) as u32));
    assert(v@ =~= old(v)@ + spec_percent_chars(spec_tenths(num as int, den as int)));
}

/// Appends the whole percentage column for the ratio `num / den`.
fn push_percent_field(v: &mut Vec<char>, num: u64, den: u64)
    requires
        den >= 1,
    ensures
        final(v)@ == old(v)@ + spec_percent_field(num as int, den as int),
{
    let mut p: Vec<char> = Vec::new();
    push_percent_chars(&mut p, num, den);
    let mut k: usize = p.len();
    proof {
        assert(v@ =~= old(v)@ + spec_spaces(0));
    }
    while k < 6
        invariant
            p@ == spec_percent_chars(spec_tenths(num as int, den as int)),
            p@.len() <= k <= 6 || k == p@.len(),
            v@ == old(v)@ + spec_spaces(k - p@.len()),
        decreases 6 - k,
    {
        v.push(' ');
        assert(v@ =~= old(v)@ + spec_spaces(k + 1 - p@.len()));
        k = k + 1;
    }
    let mut i: usize = 0;
    let ghost mid = v@;
    while i < p.len()
        invariant
            i <= p@.len(),
            v@ == mid + p@.subrange(0, i as int),
        decreases p@.len() - i,
    {
        v.push(p[i]);
        assert(v@ =~= mid + p@.subrange(0, i + 1));
        i = i + 1;
    }
    proof {
        assert(p@.subrange(0, p@.len() as int) =~= p@);
    }
    v.push('%');
    v.push(' ');
    proof {
        if p@.len() >= 6 {
            assert(spec_spaces(0) =~= Seq::<char>::empty());
            assert(v@ =~= old(v)@ + spec_percent_field(num as int, den as int));
        } else {
            assert(v@ =~= old(v)@ + spec_percent_field(num as int, den as int));
        }
    }
}

/// One habit's report row over the given days: label, one glyph per
/// day, then the rolling percentage at `pct_upto` when the habit has a
/// target and a range, else blank padding.
pub open spec fn spec_habit_row(
    h: HabitV,
    es: Seq<EntryV>,
    idx: Seq<GroupV>,
    dates: Seq<Date>,
    pct_upto: Date,
) -> Seq<char> {
    spec_label(h.name) + dates.map_values(|d: Date| spec_habit_cell(h, es, d)) + (
    if h.every_days >= 1 && h.range >= 1 {
        spec_percent_field(
            100 * spec_window_sum(spec_habit_items(idx, h.name), pct_upto, h.every_days),
            h.range as int,
        )
    } else {
        spec_spaces(7)
    })
}

/// Renders one habit's row.
pub fn render_habit_row(
    habit: &Habit,
    entries: &Vec<Entry>,
    idx: &Vec<Group>,
    dates: &Vec<Date>,
    pct_upto: &Date,
) -> (r: String)
    requires
        pct_upto.valid(),
        index_dates_valid(index_views(idx@)),
        forall|g: int| 0 <= g < idx@.len() ==> (#[trigger] idx@[g]).items@.len() <= 0x0100_0000,
    ensures
        r@ == spec_habit_row(habit@, entry_views(entries@), index_views(idx@), dates@, *pct_upto),
{
    let ghost es = entry_views(entries@);
    let ghost iv = index_views(idx@);
    let ghost cell = |d: Date| spec_habit_cell(habit@, es, d);
    let mut v: Vec<char> = Vec::new();
    push_label(&mut v, &habit.name);
    let ghost lab = v@;
    let mut i: usize = 0;
    proof {
        assert(dates@.subrange(0, 0).map_values(cell) =~= Seq::<char>::empty());
        assert(v@ =~= lab + dates@.subrange(0, 0).map_values(cell));
    }
    while i < dates.len()
        invariant
            es == entry_views(entries@),
            cell == (|d: Date| spec_habit_cell(habit@, es, d)),
            i <= dates@.len(),
            v@ == lab + dates@.subrange(0, i as int).map_values(cell),
        decreases dates@.len() - i,
    {
        let c = match day_value(entries, &habit.name, &dates[i]) {
            Some(val) => {
                if habit.range >= 1 {
                    spark_of(val as u64, habit.range as u64)
                } else {
                    exec_spark(0)
                }
            },
            None => exec_spark(0),
        };
        assert(c == cell(dates@[i as int]));
        v.push(c);
        assert(v@ =~= lab + dates@.subrange(0, i + 1).map_values(cell));
        i = i + 1;
    }
    proof {
        assert(dates@.subrange(0, dates@.len() as int) =~= dates@);
    }
    let empty_items: Vec<(Date, u32)> = Vec::new();
    if habit.every_days >= 1 && habit.range >= 1 {
        let items = match crate::index::group_pos(idx, &habit.name) {
            Some(p) => {
                proof {
                    crate::index::lemma_group_pos_props(iv, habit.name@);
                }
                &idx[p].items
            },
            None => {
                proof {
                    assert(spec_habit_items(iv, habit.name@) =~= Seq::<(Date, u32)>::empty());
                }
                &empty_items
            },
        };
        proof {
            assert(items@ == spec_habit_items(iv, habit.name@));
        }
        let s = crate::score::window_sum(items, pct_upto, habit.every_days);
        proof {
            crate::score::lemma_window_sum_bounds(
                spec_habit_items(iv, habit.name@),
                *pct_upto,
                habit.every_days,
            );
            assert(s <= 0x0100_0000 * 0xFFFF_FFFFu64) by (nonlinear_arith)
                requires
                    s <= items@.len() * 0xFFFF_FFFF,
                    items@.len() <= 0x0100_0000,
            ;
        }
        push_percent_field(&mut v, 100 * s, habit.range as u64);
    } else {
        let mut k: usize = 0;
        let ghost mid = v@;
        while k < 7
            invariant
                k <= 7,
                v@ == mid + spec_spaces(k as int),
            decreases 7 - k,
        {
            v.push(' ');
            assert(v@ =~= mid + spec_spaces(k + 1));
            k = k + 1;
        }
    }
    let r = crate::text::string_of_chars(&v);
    proof {
        assert(r@ =~= spec_habit_row(habit@, es, iv, dates@, *pct_upto));
    }
    r
}

/// One day cell of the aggregate row: the glyph of the aggregate day
/// score (a percentage), or a blank when no habit can be scored.
pub open spec fn spec_agg_cell(habits: Seq<HabitV>, idx: Seq<GroupV>, d: Date) -> char {
    if spec_scorable_count(habits) == 0 {
        spec_spark(0)
    } else {
        spec_spark(
            spec_bucket(
                spec_cap_sum(habits, idx, d).0,
                spec_cap_sum(habits, idx, d).1 * spec_scorable_count(habits),
            ),
        )
    }
}

/// The report's header row: a blank label column, then the aggregate
/// glyph of each day.
pub open spec fn spec_header_row(habits: Seq<HabitV>, idx: Seq<GroupV>, dates: Seq<Date>) -> Seq<
    char,
> {
    spec_spaces(26) + dates.map_values(|d: Date| spec_agg_cell(habits, idx, d))
}

/// Renders the header row.
pub fn render_header_row(habits: &Vec<Habit>, idx: &Vec<Group>, dates: &Vec<Date>) -> (r: String)
    requires
        index_dates_valid(index_views(idx@)),
        forall|g: int| 0 <= g < idx@.len() ==> (#[trigger] idx@[g]).items@.len() <= 0x0100_0000,
        forall|i: int| 0 <= i < dates@.len() ==> (#[trigger] dates@[i]).valid(),
        spec_ranges_product(habit_views(habits@)) <= 0x1_0000_0000,
        habits@.len() <= 0x10_0000,
    ensures
        r@ == spec_header_row(habit_views(habits@), index_views(idx@), dates@),
{
    let ghost hv = habit_views(habits@);
    let ghost iv = index_views(idx@);
    let ghost cell = |d: Date| spec_agg_cell(hv, iv, d);
    let mut v: Vec<char> = Vec::new();
    let mut k: usize = 0;
    while k < 26
        invariant
            k <= 26,
            v@ == spec_spaces(k as int),
        decreases 26 - k,
    {
        v.push(' ');
        assert(v@ =~= spec_spaces(k + 1));
        k = k + 1;
    }
    let scorable = count_scorable(habits);
    let mut i: usize = 0;
    proof {
        assert(v@ =~= spec_spaces(26) + dates@.subrange(0, 0).map_values(cell));
    }
    while i < dates.len()
        invariant
            hv == habit_views(habits@),
            iv == index_views(idx@),
            cell == (|d: Date| spec_agg_cell(hv, iv, d)),
            index_dates_valid(iv),
            forall|g: int| 0 <= g < idx@.len() ==> (#[trigger] idx@[g]).items@.len() <= 0x0100_0000,
            forall|q: int| 0 <= q < dates@.len() ==> (#[trigger] dates@[q]).valid(),
            spec_ranges_product(hv) <= 0x1_0000_0000,
            habits@.len() <= 0x10_0000,
            scorable == spec_scorable_count(hv),
            i <= dates@.len(),
            v@ == spec_spaces(26) + dates@.subrange(0, i as int).map_values(cell),
        decreases dates@.len() - i,
    {
        let c = if scorable == 0 {
            exec_spark(0)
        } else {
            let agg = crate::score::aggregate_score(habits, idx, &dates[i]);
            spark_of(agg.num, agg.den)
        };
        assert(c == cell(dates@[i as int]));
        v.push(c);
        assert(v@ =~= spec_spaces(26) + dates@.subrange(0, i + 1).map_values(cell));
        i = i + 1;
    }
    proof {
        assert(dates@.subrange(0, dates@.len() as int) =~= dates@);
    }
    crate::text::string_of_chars(&v)
}

/// Counts the habits that can be scored.
pub fn count_scorable(habits: &Vec<Habit>) -> (r: u64)
    requires
        habits@.len() <= 0x10_0000,
    ensures
        r == spec_scorable_count(habit_views(habits@)),
{
    let ghost hv = habit_views(habits@);
    let mut cnt: u64 = 0;
    let mut k: usize = 0;
    proof {
        assert(hv.subrange(0, 0) =~= Seq::<HabitV>::empty());
    }
    while k < habits.len()
        invariant
            hv == habit_views(habits@),
            hv.len() == habits@.len() <= 0x10_0000,
            k <= hv.len(),
            0 <= cnt <= k,
            cnt == spec_scorable_count(hv.subrange(0, k as int)),
        decreases hv.len() - k,
    {
        let ghost pre = hv.subrange(0, k as int);
        let ghost cur = hv.subrange(0, k + 1);
        proof {
            assert(cur.drop_last() =~= pre);
            assert(cur.last() == habits@[k as int]@);
        }
        if habits[k].range >= 1 {
            cnt = cnt + 1;
        }
        k = k + 1;
    }
    proof {
        assert(hv.subrange(0, hv.len() as int) =~= hv);
    }
    cnt
}

/// The closing line of the report: the aggregate day score at
/// `pct_upto` as a percentage with one decimal.
pub open spec fn spec_total_line(habits: Seq<HabitV>, idx: Seq<GroupV>, pct_upto: Date) -> Seq<
    char,
> {
    seq!['T', 'o', 't', 'a', 'l', ' ', 's', 'c', 'o', 'r', 'e', ':', ' ']
        + spec_percent_chars(
        spec_tenths(
            spec_cap_sum(habits, idx, pct_upto).0,
            spec_cap_sum(habits, idx, pct_upto).1 * spec_scorable_count(habits),
        ),
    ) + seq!['%']
}

/// Renders the total-score line, when some habit can be scored.
pub fn render_total_line(habits: &Vec<Habit>, idx: &Vec<Group>, pct_upto: &Date) -> (r: Option<
    String,
>)
    requires
        pct_upto.valid(),
        index_dates_valid(index_views(idx@)),
        forall|g: int| 0 <= g < idx@.len() ==> (#[trigger] idx@[g]).items@.len() <= 0x0100_0000,
        spec_ranges_product(habit_views(habits@)) <= 0x1_0000_0000,
        habits@.len() <= 0x10_0000,
    ensures
        match r {
            Some(line) => spec_scorable_count(habit_views(habits@)) >= 1 && line@
                == spec_total_line(habit_views(habits@), index_views(idx@), *pct_upto),
            None => spec_scorable_count(habit_views(habits@)) == 0,
        },
{
    let scorable = count_scorable(habits);
    if scorable == 0 {
        return None;
    }
    let agg = crate::score::aggregate_score(habits, idx, pct_upto);
    let mut v: Vec<char> = Vec::new();
    v.push('T');
    v.push('o');
    v.push('t');
    v.push('a');
    v.push('l');
    v.push(' ');
    v.push('s');
    v.push('c');
    v.push('o');
    v.push('r');
    v.push('e');
    v.push(':');
    v.push(' ');
    push_percent_chars(&mut v, agg.num, agg.den);
    v.push('%');
    let r = crate::text::string_of_chars(&v);
    proof {
        assert(r@ =~= spec_total_line(habit_views(habits@), index_views(idx@), *pct_upto));
    }
    Some(r)
}

/// The consecutive valid dates from `from` to `to`, inclusive.
pub fn date_range(from: &Date, to: &Date) -> (r: Vec<Date>)
    requires
        from.valid(),
        to.valid(),
        spec_day_number(*from) <= spec_day_number(*to),
    ensures
        r@.len() == spec_day_number(*to) - spec_day_number(*from) + 1,
        forall|i: int| 0 <= i < r@.len() ==> (#[trigger] r@[i]).valid(),
        forall|i: int|
            0 <= i < r@.len() ==> spec_day_number(#[trigger] r@[i]) == spec_day_number(*from) + i,
        r@[0] == *from,
{
    let from_n = crate::date::day_number(from);
    let to_n = crate::date::day_number(to);
    let mut out: Vec<Date> = Vec::new();
    let mut cur = *from;
    out.push(cur);
    while crate::date::day_number(&cur) < to_n
        invariant
            from.valid(),
            to.valid(),
            cur.valid(),
            from_n == spec_day_number(*from),
            to_n == spec_day_number(*to),
            from_n <= spec_day_number(cur) <= to_n,
            out@.len() == spec_day_number(cur) - from_n + 1,
            forall|i: int| 0 <= i < out@.len() ==> (#[trigger] out@[i]).valid(),
            forall|i: int|
                0 <= i < out@.len() ==> spec_day_number(#[trigger] out@[i]) == from_n + i,
            out@[0] == *from,
        decreases to_n - spec_day_number(cur),
    {
        proof {
            crate::date::lemma_day_number_le_max(*to);
            crate::date::lemma_day_number_max_value();
        }
        assert(!(cur.year == 9999 && cur.month == 12 && cur.day == 31));
        cur = crate::date::next_day(&cur);
        out.push(cur);
    }
    out
}

} // verus!
