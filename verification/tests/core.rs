use habitctl::backfill::{decide_input, lookback_days, InputAction};
use habitctl::date::{day_number, next_day, parse_date_range, prev_day, sub_days, Date};
use habitctl::filter::filter_habits;
use habitctl::index::build_index;
use habitctl::log::{append_text, first_date, last_date, parse_entry_line, parse_log};
use habitctl::model::{Entry, Habit, ParseError};
use habitctl::registry::parse_habits;
use habitctl::render::{date_range, render_habit_row, render_header_row, render_total_line};
use habitctl::score::{aggregate_score, rolling_habit_score, window_sum};
use habitctl::todo::{pending, pending_due};

fn d(y: u32, m: u32, dd: u32) -> Date {
    Date::new(y, m, dd)
}

fn habit(every_days: u32, range: u32, name: &str) -> Habit {
    Habit { every_days, range, name: name.to_string() }
}

fn entry(date: Date, habit: &str, value: u32) -> Entry {
    Entry { date, habit: habit.to_string(), value }
}

fn items_for<'a>(
    idx: &'a [habitctl::index::Group],
    name: &str,
) -> Vec<(Date, u32)> {
    for g in idx {
        if g.name == name {
            return g.items.clone();
        }
    }
    Vec::new()
}

#[test]
fn date_parse_and_format_round_trip() {
    let s = "2024-02-29";
    let date = parse_date_range(s, 0, 10).unwrap();
    assert_eq!(date, d(2024, 2, 29));
    let e = entry(date, "x", 3);
    let text = append_text(None, &e);
    assert_eq!(text, "2024-02-29\tx\t3\n");
}

#[test]
fn date_parse_rejects_bad_shapes() {
    assert!(parse_date_range("2023-02-29", 0, 10).is_none());
    assert!(parse_date_range("2024-13-01", 0, 10).is_none());
    assert!(parse_date_range("2024-00-10", 0, 10).is_none());
    assert!(parse_date_range("2024-01-32", 0, 10).is_none());
    assert!(parse_date_range("2024-1-02", 0, 9).is_none());
    assert!(parse_date_range("20240102", 0, 8).is_none());
    assert!(parse_date_range("abcd-01-02", 0, 10).is_none());
}

#[test]
fn day_arithmetic_crosses_month_and_year() {
    let end = d(2023, 12, 31);
    let next = next_day(&end);
    assert_eq!(next, d(2024, 1, 1));
    assert_eq!(day_number(&next), day_number(&end) + 1);
    let feb = next_day(&d(2024, 2, 28));
    assert_eq!(feb, d(2024, 2, 29));
    assert_eq!(prev_day(&d(2024, 3, 1)), d(2024, 2, 29));
    assert_eq!(sub_days(&d(2024, 1, 3), 5), d(2023, 12, 29));
}

#[test]
fn append_then_reread_round_trip() {
    let mut log_text = String::new();
    let e1 = entry(d(2024, 1, 1), "Meditated", 1);
    log_text += &append_text(None, &e1);
    let parsed = parse_log(&log_text).unwrap();
    assert_eq!(parsed.len(), 1);
    assert_eq!(parsed[0].date, d(2024, 1, 1));
    assert_eq!(parsed[0].habit, "Meditated");
    assert_eq!(parsed[0].value, 1);

    let e2 = entry(d(2024, 1, 2), "Meditated", 0);
    log_text += &append_text(last_date(&parsed).as_ref(), &e2);
    let parsed = parse_log(&log_text).unwrap();
    assert_eq!(parsed.len(), 2);
    assert_eq!(parsed[1].date, d(2024, 1, 2));
    assert_eq!(parsed[1].value, 0);
    // a day change inserts one blank separator line
    assert!(log_text.contains("\n\n"));

    let e3 = entry(d(2024, 1, 2), "Ran", 1);
    let tail = append_text(last_date(&parsed).as_ref(), &e3);
    // same date: no separator
    assert_eq!(tail, "2024-01-02\tRan\t1\n");
    log_text += &tail;
    let parsed = parse_log(&log_text).unwrap();
    assert_eq!(parsed.len(), 3);
    assert_eq!(parsed[2].habit, "Ran");
}

#[test]
fn log_parser_skips_blank_lines_and_reports_bad_ones() {
    let good = "2024-01-01\ta b\t2\n\n2024-01-02\ta b\t0\n";
    let es = parse_log(good).unwrap();
    assert_eq!(es.len(), 2);
    assert_eq!(es[0].habit, "a b");

    let bad = "2024-01-01\tx\t1\noops\n";
    match parse_log(bad) {
        Err(ParseError::LogLine(k)) => assert_eq!(k, 1),
        _ => panic!("expected a log parse error"),
    }
    assert!(parse_log("2024-01-01\tx\t-1\n").is_err());
    assert!(parse_log("2024-01-01\tx\t\n").is_err());
    assert!(parse_log("2024-01-01\tx\n").is_err());
}

#[test]
fn entry_line_value_bounds() {
    assert!(parse_entry_line("2024-01-01\tx\t4294967295").is_some());
    assert!(parse_entry_line("2024-01-01\tx\t4294967296").is_none());
}

#[test]
fn registry_parses_names_comments_and_errors() {
    let text = "# comment\n\n1 1 Meditated\n7 3 Cleaned the apartment\n0 1 Had a headache\n";
    let hs = parse_habits(text).unwrap();
    assert_eq!(hs.len(), 3);
    assert_eq!(hs[0].every_days, 1);
    assert_eq!(hs[0].range, 1);
    assert_eq!(hs[0].name, "Meditated");
    assert_eq!(hs[1].name, "Cleaned the apartment");
    assert_eq!(hs[2].every_days, 0);

    match parse_habits("1 1 ok\n1 x bad\n") {
        Err(ParseError::HabitLine(k)) => assert_eq!(k, 1),
        _ => panic!("expected a habit parse error"),
    }
    assert!(parse_habits("1 Meditated\n").is_err());
    assert!(parse_habits("  2 5 padded name \n").unwrap()[0].name == "padded name");
}

#[test]
fn index_groups_by_first_occurrence_in_file_order() {
    let es = vec![
        entry(d(2024, 1, 1), "a", 1),
        entry(d(2024, 1, 1), "b", 2),
        entry(d(2024, 1, 2), "a", 3),
    ];
    let idx = build_index(&es);
    assert_eq!(idx.len(), 2);
    assert_eq!(idx[0].name, "a");
    assert_eq!(idx[0].items, vec![(d(2024, 1, 1), 1), (d(2024, 1, 2), 3)]);
    assert_eq!(idx[1].name, "b");
    assert_eq!(idx[1].items, vec![(d(2024, 1, 1), 2)]);
}

#[test]
fn index_recomputation_is_identical() {
    let es = vec![
        entry(d(2024, 1, 1), "a", 1),
        entry(d(2024, 1, 2), "b", 0),
        entry(d(2024, 1, 2), "a", 2),
    ];
    let i1 = build_index(&es);
    let i2 = build_index(&es);
    assert_eq!(i1.len(), i2.len());
    for (g1, g2) in i1.iter().zip(i2.iter()) {
        assert_eq!(g1.name, g2.name);
        assert_eq!(g1.items, g2.items);
    }
}

#[test]
fn single_entry_rolling_score_is_value_over_range() {
    let h = habit(1, 2, "x");
    let items = vec![(d(2024, 5, 1), 1)];
    let r = rolling_habit_score(&h, &items, &d(2024, 5, 1)).unwrap();
    // 1 / 2 * 100 = 50%
    assert_eq!(r.num, 100);
    assert_eq!(r.den, 2);
}

#[test]
fn no_rolling_score_without_target_or_range() {
    let items = vec![(d(2024, 5, 1), 1)];
    assert!(rolling_habit_score(&habit(0, 2, "x"), &items, &d(2024, 5, 1)).is_none());
    assert!(rolling_habit_score(&habit(1, 0, "x"), &items, &d(2024, 5, 1)).is_none());
}

#[test]
fn window_excludes_days_before_the_target_span() {
    // every_days = 1: only the day itself counts
    let items = vec![(d(2024, 1, 1), 1), (d(2024, 1, 2), 0)];
    assert_eq!(window_sum(&items, &d(2024, 1, 2), 1), 0);
    assert_eq!(window_sum(&items, &d(2024, 1, 1), 1), 1);
    // every_days = 2: both days count at the second date
    assert_eq!(window_sum(&items, &d(2024, 1, 2), 2), 1);
}

#[test]
fn scenario_meditated_two_days() {
    let habits = vec![habit(1, 1, "Meditated")];
    let log_text = "2024-01-01\tMeditated\t1\n\n2024-01-02\tMeditated\t0\n";
    let entries = parse_log(log_text).unwrap();
    let idx = build_index(&entries);
    let items = items_for(&idx, "Meditated");
    let r2 = rolling_habit_score(&habits[0], &items, &d(2024, 1, 2)).unwrap();
    assert_eq!(r2.num, 0); // 0.0%
    let r1 = rolling_habit_score(&habits[0], &items, &d(2024, 1, 1)).unwrap();
    assert_eq!(r1.num * 10, 1000 * r1.den); // exactly 100.0%
}

#[test]
fn scenario_seven_day_streak_uncapped_then_capped() {
    let habits = vec![habit(7, 1, "x")];
    let mut items = Vec::new();
    let mut day = d(2024, 3, 1);
    for _ in 0..7 {
        items.push((day, 1));
        day = next_day(&day);
    }
    let upto = prev_day(&day);
    let r = rolling_habit_score(&habits[0], &items, &upto).unwrap();
    // 7 / 1 * 100 = 700.0%, uncapped
    assert_eq!(r.num, 700);
    assert_eq!(r.den, 1);

    let idx = build_index(
        &items
            .iter()
            .map(|(dt, v)| entry(*dt, "x", *v))
            .collect::<Vec<_>>(),
    );
    let agg = aggregate_score(&habits, &idx, &upto);
    // capped at 100 before averaging; a single habit gives exactly 100.0
    assert_eq!(agg.num, 100);
    assert_eq!(agg.den, 1);
}

#[test]
fn aggregate_is_mean_of_capped_scores() {
    // habit a: 1/2 (50%), habit b: 3/2 capped to 100%
    let habits = vec![habit(1, 2, "a"), habit(1, 2, "b")];
    let entries = vec![entry(d(2024, 1, 1), "a", 1), entry(d(2024, 1, 1), "b", 3)];
    let idx = build_index(&entries);
    let agg = aggregate_score(&habits, &idx, &d(2024, 1, 1));
    // (50 + 100) / 2 = 75%: the exact ratio 600 / 8
    assert_eq!(agg.num, 600);
    assert_eq!(agg.den, 8);
    assert_eq!(agg.num * 100, 75 * agg.den * 100 / 1);
}

#[test]
fn aggregate_skips_habits_without_a_range() {
    let habits = vec![habit(1, 1, "a"), habit(1, 0, "note")];
    let entries = vec![entry(d(2024, 1, 1), "a", 1)];
    let idx = build_index(&entries);
    let agg = aggregate_score(&habits, &idx, &d(2024, 1, 1));
    assert_eq!(agg.num, 100);
    assert_eq!(agg.den, 1);
}

#[test]
fn empty_input_is_skipped_not_written() {
    assert_eq!(decide_input("", 3), InputAction::Skip);
}

#[test]
fn invalid_inputs_reprompt_without_writing() {
    assert_eq!(decide_input("abc", 3), InputAction::Reprompt);
    assert_eq!(decide_input("-1", 3), InputAction::Reprompt);
    assert_eq!(decide_input("4", 3), InputAction::Reprompt);
    assert_eq!(decide_input("1.5", 3), InputAction::Reprompt);
    assert_eq!(decide_input(" ", 3), InputAction::Reprompt);
}

#[test]
fn in_range_inputs_are_recorded() {
    assert_eq!(decide_input("0", 3), InputAction::Record(0));
    assert_eq!(decide_input("3", 3), InputAction::Record(3));
    assert_eq!(decide_input("2 ", 3), InputAction::Record(2));
}

#[test]
fn empty_log_lists_every_due_habit_in_registry_order() {
    let habits = vec![habit(1, 1, "a"), habit(0, 1, "note"), habit(7, 3, "b")];
    let entries = parse_log("").unwrap();
    assert!(entries.is_empty());
    let idx = build_index(&entries);
    let today = d(2024, 6, 1);
    let due = pending_due(&today, &habits, &idx);
    let names: Vec<&str> = due.iter().map(|h| h.name.as_str()).collect();
    assert_eq!(names, vec!["a", "b"]);
    // pending (without the due filter) lists the tracking habit too
    let all = pending(&today, &habits, &idx);
    assert_eq!(all.len(), 3);
}

#[test]
fn logged_habits_are_not_pending_that_day() {
    let habits = vec![habit(1, 1, "a"), habit(1, 1, "b")];
    let entries = vec![entry(d(2024, 6, 1), "a", 1)];
    let idx = build_index(&entries);
    let due = pending_due(&d(2024, 6, 1), &habits, &idx);
    assert_eq!(due.len(), 1);
    assert_eq!(due[0].name, "b");
    let due_next = pending_due(&d(2024, 6, 2), &habits, &idx);
    assert_eq!(due_next.len(), 2);
}

#[test]
fn lookback_covers_at_most_a_week() {
    let today = d(2024, 6, 10);
    assert_eq!(lookback_days(&today, None), 1);
    assert_eq!(lookback_days(&today, Some(&d(2024, 6, 8))), 2);
    assert_eq!(lookback_days(&today, Some(&d(2024, 1, 1))), 7);
    assert_eq!(lookback_days(&today, Some(&d(2024, 6, 10))), 0);
    assert_eq!(lookback_days(&today, Some(&d(2024, 7, 1))), 0);
}

#[test]
fn filters_match_case_insensitively() {
    let habits = vec![habit(1, 1, "Meditated"), habit(1, 1, "Ran")];
    let shown = filter_habits(&habits, &vec!["med".to_string()]);
    assert_eq!(shown.len(), 1);
    assert_eq!(shown[0].name, "Meditated");
    let all = filter_habits(&habits, &Vec::new());
    assert_eq!(all.len(), 2);
    let none = filter_habits(&habits, &vec!["xyz".to_string()]);
    assert!(none.is_empty());
    let upper = filter_habits(&habits, &vec!["RAN".to_string()]);
    assert_eq!(upper.len(), 1);
    assert_eq!(upper[0].name, "Ran");
}

#[test]
fn date_range_is_inclusive_and_consecutive() {
    let r = date_range(&d(2023, 12, 30), &d(2024, 1, 2));
    assert_eq!(r.len(), 4);
    assert_eq!(r[0], d(2023, 12, 30));
    assert_eq!(r[1], d(2023, 12, 31));
    assert_eq!(r[2], d(2024, 1, 1));
    assert_eq!(r[3], d(2024, 1, 2));
}

#[test]
fn habit_row_shows_label_glyphs_and_percentage() {
    let h = habit(1, 1, "Run");
    let entries = vec![entry(d(2024, 1, 1), "Run", 1)];
    let idx = build_index(&entries);
    let dates = date_range(&d(2024, 1, 1), &d(2024, 1, 2));
    let row = render_habit_row(&h, &entries, &idx, &dates, &d(2024, 1, 1));
    assert_eq!(row, "Run                       \u{2588}  100.0% ");
}

#[test]
fn tracking_habit_row_has_blank_percentage() {
    let h = habit(0, 1, "note");
    let entries = vec![entry(d(2024, 1, 1), "note", 1)];
    let idx = build_index(&entries);
    let dates = date_range(&d(2024, 1, 1), &d(2024, 1, 1));
    let row = render_habit_row(&h, &entries, &idx, &dates, &d(2024, 1, 1));
    assert_eq!(row, "note                      \u{2588}       ");
}

#[test]
fn half_score_picks_a_middle_glyph() {
    let h = habit(1, 2, "x");
    let entries = vec![entry(d(2024, 1, 1), "x", 1)];
    let idx = build_index(&entries);
    let dates = date_range(&d(2024, 1, 1), &d(2024, 1, 1));
    let row = render_habit_row(&h, &entries, &idx, &dates, &d(2024, 1, 1));
    // 1/2 scores bucket floor(9/2) = 4
    assert_eq!(row, "x                         \u{2584}  50.0% ");
}

#[test]
fn long_names_are_cut_to_the_label_width() {
    let h = habit(0, 1, "abcdefghijklmnopqrstuvwxyz");
    let entries: Vec<Entry> = Vec::new();
    let idx = build_index(&entries);
    let dates = date_range(&d(2024, 1, 1), &d(2024, 1, 1));
    let row = render_habit_row(&h, &entries, &idx, &dates, &d(2024, 1, 1));
    assert_eq!(row, "abcdefghijklmnopqrstuvwxy         ");
}

#[test]
fn header_row_and_total_line_report_the_aggregate() {
    let habits = vec![habit(1, 1, "a")];
    let entries = vec![entry(d(2024, 1, 1), "a", 1)];
    let idx = build_index(&entries);
    let dates = date_range(&d(2024, 1, 1), &d(2024, 1, 2));
    let header = render_header_row(&habits, &idx, &dates);
    // day one scores 100% (full glyph), day two 0% (blank)
    assert_eq!(header, "                          \u{2588} ");
    let total = render_total_line(&habits, &idx, &d(2024, 1, 1)).unwrap();
    assert_eq!(total, "Total score: 100.0%");
}

#[test]
fn total_line_absent_without_scorable_habits() {
    let habits = vec![habit(1, 0, "note")];
    let idx = build_index(&Vec::new());
    assert!(render_total_line(&habits, &idx, &d(2024, 1, 1)).is_none());
}

#[test]
fn first_and_last_dates_follow_file_order() {
    let text = "2024-01-01\ta\t1\n2024-01-03\tb\t0\n";
    let es = parse_log(text).unwrap();
    assert_eq!(first_date(&es), Some(d(2024, 1, 1)));
    assert_eq!(last_date(&es), Some(d(2024, 1, 3)));
    assert_eq!(first_date(&Vec::new()), None);
}
