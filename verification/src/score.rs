//! The scoring engine: rolling per-habit scores and the aggregate day
//! score, as exact rationals.
//!
//! A habit's rolling score at a date is the sum of its logged values
//! over the window of its last `every_days` days (inclusive of the
//! date), divided by its range, as a percentage. The aggregate day
//! score is the arithmetic mean, over the habits that can be scored
//! (`range >= 1`), of the rolling scores each capped at 100.

use vstd::prelude::*;
use crate::date::Date;
use crate::date::spec_day_number;
use crate::index::Group;
use crate::index::GroupV;
use crate::index::index_views;
use crate::index::spec_group_pos;
use crate::model::Habit;
use crate::model::HabitV;

verus! {

/// An exact non-negative rational, `num / den`.
pub struct Ratio {
    pub num: u64,
    pub den: u64,
}

impl Ratio {
    pub open spec fn wf(self) -> bool {
        self.den >= 1
    }

    /// The rational this value denotes equals `n / d`.
    pub open spec fn is_frac(self, n: int, d: int) -> bool {
        self.num * d == n * self.den
    }
}

/// Whether a date falls in the window `(upto - every_days, upto]`.
pub open spec fn in_window(d: Date, upto: Date, every_days: u32) -> bool {
    spec_day_number(d) > spec_day_number(upto) - every_days && spec_day_number(d)
        <= spec_day_number(upto)
}

/// Sum of the values logged in the window.
pub open spec fn spec_window_sum(items: Seq<(Date, u32)>, upto: Date, every_days: u32) -> int
    decreases items.len(),
{
    if items.len() == 0 {
        0int
    } else {
        spec_window_sum(items.drop_last(), upto, every_days) + if in_window(
            items.last().0,
            upto,
            every_days,
        ) {
            items.last().1 as int
        } else {
            0int
        }
    }
}

/// All dates held in an index are valid calendar dates.
pub open spec fn index_dates_valid(idx: Seq<GroupV>) -> bool {
    forall|g: int, i: int|
        0 <= g < idx.len() && 0 <= i < idx[g].items.len() ==> (#[trigger] idx[g].items[i]).0.valid()
}

/// The items the index holds for a habit name (none: an empty history).
pub open spec fn spec_habit_items(idx: Seq<GroupV>, name: Seq<char>) -> Seq<(Date, u32)> {
    match spec_group_pos(idx, name) {
        Some(p) => idx[p].items,
        None => Seq::<(Date, u32)>::empty(),
    }
}

pub proof fn lemma_window_sum_bounds(items: Seq<(Date, u32)>, upto: Date, every_days: u32)
    ensures
        0 <= spec_window_sum(items, upto, every_days) <= items.len() * 0xFFFF_FFFF,
    decreases items.len(),
{
    if items.len() > 0 {
        lemma_window_sum_bounds(items.drop_last(), upto, every_days);
    }
}

/// Sums the values of the window `(upto - every_days, upto]`.
pub fn window_sum(items: &Vec<(Date, u32)>, upto: &Date, every_days: u32) -> (r: u64)
    requires
        upto.valid(),
        forall|i: int| 0 <= i < items@.len() ==> (#[trigger] items@[i]).0.valid(),
        items@.len() <= 0x0100_0000,
    ensures
        r == spec_window_sum(items@, *upto, every_days),
{
    let upto_n = crate::date::day_number(upto);
    let mut acc: u64 = 0;
    let mut i: usize = 0;
    proof {
        assert(items@.subrange(0, 0) =~= Seq::<(Date, u32)>::empty());
        lemma_window_sum_bounds(items@.subrange(0, 0), *upto, every_days);
    }
    while i < items.len()
        invariant
            upto.valid(),
            upto_n == spec_day_number(*upto),
            forall|q: int| 0 <= q < items@.len() ==> (#[trigger] items@[q]).0.valid(),
            items@.len() <= 0x0100_0000,
            i <= items@.len(),
            acc == spec_window_sum(items@.subrange(0, i as int), *upto, every_days),
            acc <= i * 0xFFFF_FFFF,
        decreases items@.len() - i,
    {
        let ghost pre = items@.subrange(0, i as int);
        let ghost cur = items@.subrange(0, i + 1);
        proof {
            assert(cur.drop_last() =~= pre);
            assert(cur.last() == items@[i as int]);
        }
        let d_n = crate::date::day_number(&items[i].0);
        let in_win = (d_n as i64) > (upto_n as i64) - (every_days as i64) && d_n <= upto_n;
        assert(in_win == in_window(items@[i as int].0, *upto, every_days));
        if in_win {
            acc = acc + (items[i].1 as u64);
        }
        i = i + 1;
    }
    proof {
        assert(items@.subrange(0, items@.len() as int) =~= items@);
    }
    acc
}

/// The rolling score of one habit at a date, as an exact percentage
/// ratio: 100 times the window sum, over the habit's range. A habit
/// with `every_days == 0` (pure tracking) or `range == 0` (no numeric
/// scale) has no rolling score.
pub fn rolling_habit_score(habit: &Habit, items: &Vec<(Date, u32)>, upto: &Date) -> (r: Option<
    Ratio,
>)
    requires
        upto.valid(),
        forall|i: int| 0 <= i < items@.len() ==> (#[trigger] items@[i]).0.valid(),
        items@.len() <= 0x0100_0000,
    ensures
        match r {
            Some(rt) => {
                &&& habit.every_days >= 1
                &&& habit.range >= 1
                &&& rt.wf()
                &&& rt.num == 100 * spec_window_sum(items@, *upto, habit.every_days)
                &&& rt.den == habit.range
            },
            None => habit.every_days == 0 || habit.range == 0,
        },
{
    if habit.every_days == 0 || habit.range == 0 {
        return None;
    }
    let s = window_sum(items, upto, habit.every_days);
    proof {
        lemma_window_sum_bounds(items@, *upto, habit.every_days);
        assert(s <= 0x0100_0000 * 0xFFFF_FFFFu64) by (nonlinear_arith)
            requires
                s <= items@.len() * 0xFFFF_FFFF,
                items@.len() <= 0x0100_0000,
        ;
    }
    Some(Ratio { num: 100 * s, den: habit.range as u64 })
}

/// The capped percentage numerator of one habit over denominator
/// `range`: `min(100, 100 * sum / range)` is `cap_num(sum, range) / range`.
pub open spec fn cap_num(sum: int, range: int) -> int {
    if sum >= range {
        100 * range
    } else {
        100 * sum
    }
}

/// The exact rational sum of the capped scores of the scorable habits
/// (those with `range >= 1`), as a (numerator, denominator) pair. The
/// denominator is the product of the scorable ranges.
pub open spec fn spec_cap_sum(habits: Seq<HabitV>, idx: Seq<GroupV>, upto: Date) -> (int, int)
    decreases habits.len(),
{
    if habits.len() == 0 {
        (0int, 1int)
    } else {
        let (n0, d0) = spec_cap_sum(habits.drop_last(), idx, upto);
        let h = habits.last();
        if h.range >= 1 {
            let sum = spec_window_sum(spec_habit_items(idx, h.name), upto, h.every_days);
            (n0 * h.range + cap_num(sum, h.range as int) * d0, d0 * h.range)
        } else {
            (n0, d0)
        }
    }
}

/// How many habits can be scored.
pub open spec fn spec_scorable_count(habits: Seq<HabitV>) -> int
    decreases habits.len(),
{
    if habits.len() == 0 {
        0int
    } else {
        spec_scorable_count(habits.drop_last()) + if habits.last().range >= 1 {
            1int
        } else {
            0int
        }
    }
}

/// The product of the scorable ranges.
pub open spec fn spec_ranges_product(habits: Seq<HabitV>) -> int
    decreases habits.len(),
{
    if habits.len() == 0 {
        1int
    } else {
        spec_ranges_product(habits.drop_last()) * if habits.last().range >= 1 {
            habits.last().range as int
        } else {
            1int
        }
    }
}

pub proof fn lemma_cap_sum_bounds(habits: Seq<HabitV>, idx: Seq<GroupV>, upto: Date)
    ensures
        spec_cap_sum(habits, idx, upto).1 == spec_ranges_product(habits),
        spec_ranges_product(habits) >= 1,
        0 <= spec_cap_sum(habits, idx, upto).0 <= 100 * spec_scorable_count(habits)
            * spec_cap_sum(habits, idx, upto).1,
        0 <= spec_scorable_count(habits) <= habits.len(),
    decreases habits.len(),
{
    if habits.len() > 0 {
        let pre = habits.drop_last();
        lemma_cap_sum_bounds(pre, idx, upto);
        let h = habits.last();
        let (n0, d0) = spec_cap_sum(pre, idx, upto);
        let c0 = spec_scorable_count(pre);
        if h.range >= 1 {
            let sum = spec_window_sum(spec_habit_items(idx, h.name), upto, h.every_days);
            let cn = cap_num(sum, h.range as int);
            lemma_window_sum_bounds(spec_habit_items(idx, h.name), upto, h.every_days);
            assert(0 <= cn <= 100 * h.range);
            assert(d0 * h.range >= 1) by (nonlinear_arith)
                requires
                    d0 >= 1,
                    h.range >= 1,
            ;
            assert(n0 * h.range + cn * d0 <= 100 * (c0 + 1) * (d0 * h.range))
                by (nonlinear_arith)
                requires
                    0 <= n0 <= 100 * c0 * d0,
                    0 <= cn <= 100 * h.range,
                    d0 >= 1,
                    h.range >= 1,
                    c0 >= 0,
            ;
            assert(n0 * h.range >= 0) by (nonlinear_arith)
                requires
                    n0 >= 0,
                    h.range >= 1,
            ;
            assert(cn * d0 >= 0) by (nonlinear_arith)
                requires
                    cn >= 0,
                    d0 >= 1,
            ;
        }
    }
}

/// Prefix products of the scorable ranges never exceed the whole.
pub proof fn lemma_ranges_product_prefix(habits: Seq<HabitV>, k: int)
    requires
        0 <= k <= habits.len(),
    ensures
        1 <= spec_ranges_product(habits.subrange(0, k)) <= spec_ranges_product(habits),
    decreases habits.len() - k,
{
    if k == habits.len() {
        assert(habits.subrange(0, k) =~= habits);
        lemma_cap_sum_bounds(habits, Seq::<GroupV>::empty(), Date { year: 1, month: 1, day: 1 });
    } else {
        lemma_ranges_product_prefix(habits, k + 1);
        let a = habits.subrange(0, k);
        let b = habits.subrange(0, k + 1);
        assert(b.drop_last() =~= a);
        let pa = spec_ranges_product(a);
        let f: int = if b.last().range >= 1 {
            b.last().range as int
        } else {
            1int
        };
        lemma_cap_sum_bounds(a, Seq::<GroupV>::empty(), Date { year: 1, month: 1, day: 1 });
        assert(pa <= pa * f) by (nonlinear_arith)
            requires
                pa >= 1,
                f >= 1,
        ;
    }
}

/// The aggregate day score: the arithmetic mean of the scorable
/// habits' capped rolling scores, as an exact ratio. Its numerator and
/// denominator are exactly those of the mean
/// `spec_cap_sum / spec_scorable_count`.
pub fn aggregate_score(habits: &Vec<Habit>, idx: &Vec<Group>, upto: &Date) -> (r: Ratio)
    requires
        upto.valid(),
        index_dates_valid(index_views(idx@)),
        forall|g: int|
            0 <= g < idx@.len() ==> (#[trigger] idx@[g]).items@.len() <= 0x0100_0000,
        spec_scorable_count(crate::model::habit_views(habits@)) >= 1,
        spec_ranges_product(crate::model::habit_views(habits@)) <= 0x1_0000_0000,
        habits@.len() <= 0x10_0000,
    ensures
        r.wf(),
        r.num == spec_cap_sum(crate::model::habit_views(habits@), index_views(idx@), *upto).0,
        r.den == spec_cap_sum(crate::model::habit_views(habits@), index_views(idx@), *upto).1
            * spec_scorable_count(crate::model::habit_views(habits@)),
{
    let ghost hv = crate::model::habit_views(habits@);
    let ghost iv = index_views(idx@);
    let empty_items: Vec<(Date, u32)> = Vec::new();
    let mut num: u64 = 0;
    let mut den: u64 = 1;
    let mut cnt: u64 = 0;
    let mut k: usize = 0;
    proof {
        assert(hv.subrange(0, 0) =~= Seq::<HabitV>::empty());
        lemma_cap_sum_bounds(hv.subrange(0, 0), iv, *upto);
    }
    while k < habits.len()
        invariant
            hv == crate::model::habit_views(habits@),
            iv == index_views(idx@),
            upto.valid(),
            index_dates_valid(iv),
            forall|g: int| 0 <= g < idx@.len() ==> (#[trigger] idx@[g]).items@.len() <= 0x0100_0000,
            spec_ranges_product(hv) <= 0x1_0000_0000,
            hv.len() == habits@.len() <= 0x10_0000,
            empty_items@.len() == 0,
            k <= habits@.len(),
            num == spec_cap_sum(hv.subrange(0, k as int), iv, *upto).0,
            den == spec_cap_sum(hv.subrange(0, k as int), iv, *upto).1,
            cnt == spec_scorable_count(hv.subrange(0, k as int)),
        decreases habits@.len() - k,
    {
        let ghost pre = hv.subrange(0, k as int);
        let ghost cur = hv.subrange(0, k + 1);
        proof {
            assert(cur.drop_last() =~= pre);
            assert(cur.last() == habits@[k as int]@);
            lemma_cap_sum_bounds(pre, iv, *upto);
            lemma_cap_sum_bounds(cur, iv, *upto);
            lemma_ranges_product_prefix(hv, k + 1);
        }
        let h = &habits[k];
        if h.range >= 1 {
            let items = match crate::index::group_pos(idx, &h.name) {
                Some(p) => {
                    proof {
                        crate::index::lemma_group_pos_props(iv, h.name@);
                    }
                    &idx[p].items
                },
                None => {
                    let ghost e = Seq::<(Date, u32)>::empty();
                    proof {
                        assert(spec_habit_items(iv, h.name@) =~= e);
                    }
                    &empty_items
                },
            };
            proof {
                assert(items@ == spec_habit_items(iv, h.name@));
            }
            let s = window_sum(items, upto, h.every_days);
            let ghost sum = spec_window_sum(spec_habit_items(iv, h.name@), *upto, h.every_days);
            let cn: u64 = if s >= (h.range as u64) {
                100 * (h.range as u64)
            } else {
                100 * s
            };
            proof {
                lemma_window_sum_bounds(spec_habit_items(iv, h.name@), *upto, h.every_days);
                assert(cn == cap_num(sum, h.range as int));
                assert(cn <= 100 * (h.range as int));
                // the new denominator stays within the product bound
                assert(spec_cap_sum(cur, iv, *upto).1 == spec_ranges_product(cur));
                assert(spec_ranges_product(cur) <= spec_ranges_product(hv));
                // every u64 operation below stays in bounds
                assert(num * (h.range as int) + cn * den <= 100 * (cnt + 1) * (den * (
                h.range as int)) && den * (h.range as int) >= 1) by (nonlinear_arith)
                    requires
                        0 <= num <= 100 * cnt * den,
                        0 <= cn <= 100 * (h.range as int),
                        den >= 1,
                        h.range >= 1,
                        cnt >= 0,
                ;
                assert(100 * (cnt + 1) * (den * (h.range as int)) <= 100 * 0x10_0000
                    * 0x1_0000_0000) by (nonlinear_arith)
                    requires
                        den * (h.range as int) <= 0x1_0000_0000,
                        0 <= cnt + 1 <= 0x10_0000,
                ;
            }
            num = num * (h.range as u64) + cn * den;
            den = den * (h.range as u64);
            cnt = cnt + 1;
        }
        k = k + 1;
    }
    proof {
        assert(hv.subrange(0, hv.len() as int) =~= hv);
        lemma_cap_sum_bounds(hv, iv, *upto);
        assert(den * cnt >= 1) by (nonlinear_arith)
            requires
                den >= 1,
                cnt >= 1,
        ;
        assert(den * cnt <= 0x1_0000_0000 * 0x10_0000u64) by (nonlinear_arith)
            requires
                1 <= den <= 0x1_0000_0000,
                1 <= cnt <= 0x10_0000,
        ;
    }
    Ratio { num, den: den * cnt }
}

/// For a registry whose only scorable habit is `h`, the aggregate day
/// score equals that habit's capped rolling score exactly: both sides
/// denote the same rational.
pub proof fn lemma_aggregate_single(h: HabitV, idx: Seq<GroupV>, upto: Date)
    requires
        h.range >= 1,
    ensures
        spec_cap_sum(seq![h], idx, upto).0 == cap_num(
            spec_window_sum(spec_habit_items(idx, h.name), upto, h.every_days),
            h.range as int,
        ),
        spec_cap_sum(seq![h], idx, upto).1 * spec_scorable_count(seq![h]) == h.range,
{
    let s1 = seq![h];
    assert(s1.drop_last() =~= Seq::<HabitV>::empty());
    assert(s1.last() == h);
    assert(spec_cap_sum(Seq::<HabitV>::empty(), idx, upto) == (0int, 1int));
    assert(spec_scorable_count(Seq::<HabitV>::empty()) == 0);
    let sum = spec_window_sum(spec_habit_items(idx, h.name), upto, h.every_days);
    assert(spec_cap_sum(s1, idx, upto).0 == 0 * h.range + cap_num(sum, h.range as int) * 1);
    assert(spec_cap_sum(s1, idx, upto).1 == 1 * (h.range as int));
    assert(spec_scorable_count(s1) == 1);
}

/// A log holding exactly one entry, of value `v` on the score date
/// itself, sums to `v` over any window with a target of at least one
/// day: the rolling score is then exactly `100 * v / range`.
pub proof fn lemma_single_entry_window(upto: Date, v: u32, every_days: u32)
    requires
        every_days >= 1,
    ensures
        spec_window_sum(seq![(upto, v)], upto, every_days) == v,
{
    let s1 = seq![(upto, v)];
    assert(s1.drop_last() =~= Seq::<(Date, u32)>::empty());
    assert(spec_window_sum(Seq::<(Date, u32)>::empty(), upto, every_days) == 0);
    assert(in_window(upto, upto, every_days));
}

/// The index of entries with valid dates holds only valid dates.
pub proof fn lemma_index_of_valid_entries(es: Seq<crate::model::EntryV>)
    requires
        forall|i: int| 0 <= i < es.len() ==> (#[trigger] es[i]).date.valid(),
    ensures
        index_dates_valid(crate::index::spec_index(es)),
    decreases es.len(),
{
    if es.len() > 0 {
        let pre = es.drop_last();
        let e = es.last();
        lemma_index_of_valid_entries(pre);
        let idx = crate::index::spec_index(pre);
        let idx2 = crate::index::spec_index(es);
        crate::index::lemma_group_pos_props(idx, e.habit);
        assert forall|g: int, i: int|
            0 <= g < idx2.len() && 0 <= i < idx2[g].items.len() implies (#[trigger] idx2[g].items[i]).0.valid() by {
            match crate::index::spec_group_pos(idx, e.habit) {
                Some(p) => {
                    if g == p && i == idx[p].items.len() {
                        assert(idx2[g].items[i] == (e.date, e.value));
                    } else {
                        assert(idx2[g].items[i] == idx[g].items[i]);
                    }
                },
                None => {
                    if g == idx.len() {
                        assert(idx2[g].items[i] == (e.date, e.value));
                    } else {
                        assert(idx2[g].items[i] == idx[g].items[i]);
                    }
                },
            }
        }
    }
}

} // verus!
