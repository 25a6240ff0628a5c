//! The log store: parsing the append-only entry log and producing the
//! text that appends one entry to it.
//!
//! A log is tab-separated text, one entry per non-empty line
//! (`date\thabit\tvalue`, date strictly `YYYY-MM-DD`). Blank lines are
//! cosmetic day separators and are skipped. A line may end in a
//! carriage return, which is ignored.

use vstd::prelude::*;
use vstd::string::StrSliceExecFns;
use vstd::string::StringExecFns;
use crate::date::Date;
use crate::date::spec_date_chars;
use crate::date::spec_parse_date;
use crate::model::Entry;
use crate::model::EntryV;
use crate::model::ParseError;
use crate::model::entry_views;
use crate::model::habit_name_ok;
use crate::text::all_digits;
use crate::text::dec_val;
use crate::text::is_digit;
use crate::text::spec_lines;
use crate::text::spec_parse_u32;
use crate::text::spec_u32_string;

verus! {

/// A line with one trailing carriage return removed.
pub open spec fn strip_cr(l: Seq<char>) -> Seq<char> {
    if l.len() > 0 && l.last() == '\r' {
        l.drop_last()
    } else {
        l
    }
}

/// What one log line parses to: date, habit name and value, separated
/// by the line's first two tab characters.
pub open spec fn spec_parse_entry_line(raw: Seq<char>) -> Option<EntryV> {
    let l = strip_cr(raw);
    match l.index_of_first('\t') {
        None => None,
        Some(i) => match l.subrange(i + 1, l.len() as int).index_of_first('\t') {
            None => None,
            Some(k) => {
                let j = i + 1 + k;
                match (spec_parse_date(l.subrange(0, i)), spec_parse_u32(
                    l.subrange(j + 1, l.len() as int),
                )) {
                    (Some(d), Some(v)) => Some(
                        EntryV { date: d, habit: l.subrange(i + 1, j), value: v },
                    ),
                    _ => None,
                }
            },
        },
    }
}

/// What a list of log lines parses to: the entries of the non-empty
/// lines in order, or nothing if some non-empty line is malformed.
pub open spec fn spec_log_entries(lines: Seq<Seq<char>>) -> Option<Seq<EntryV>>
    decreases lines.len(),
{
    if lines.len() == 0 {
        Some(Seq::<EntryV>::empty())
    } else if strip_cr(lines[0]).len() == 0 {
        spec_log_entries(lines.drop_first())
    } else {
        match (spec_parse_entry_line(lines[0]), spec_log_entries(lines.drop_first())) {
            (Some(e), Some(es)) => Some(seq![e] + es),
            _ => None,
        }
    }
}

pub proof fn lemma_index_of_first_is(l: Seq<char>, c: char, i: int)
    requires
        0 <= i < l.len(),
        l[i] == c,
        forall|j: int| 0 <= j < i ==> l[j] != c,
    ensures
        l.index_of_first(c) == Some(i),
{
    l.index_of_first_ensures(c);
    assert(l.contains(c)) by {
        assert(l[i] == c);
    }
    let k = l.index_of_first(c)->Some_0;
    if k < i {
        assert(l[k] != c);
        assert(false);
    }
    if k > i {
        assert(false);
    }
}

pub proof fn lemma_index_of_first_none(l: Seq<char>, c: char)
    requires
        forall|j: int| 0 <= j < l.len() ==> l[j] != c,
    ensures
        l.index_of_first(c) == None::<int>,
{
    l.index_of_first_ensures(c);
    if l.index_of_first(c) is Some {
        let k = l.index_of_first(c)->Some_0;
        assert(l[k] == c);
        assert(false);
    }
}

/// The number of characters a line keeps once a trailing carriage
/// return is dropped.
pub fn line_content_len(s: &str) -> (r: usize)
    ensures
        r == strip_cr(s@).len(),
        r <= s@.len(),
{
    let n = s.unicode_len();
    if n > 0 && s.get_char(n - 1) == '\r' {
        n - 1
    } else {
        n
    }
}

/// Parses one log line.
pub fn parse_entry_line(line: &str) -> (r: Option<Entry>)
    ensures
        match r {
            Some(e) => spec_parse_entry_line(line@) == Some(e@),
            None => spec_parse_entry_line(line@) is None,
        },
{
    let end = line_content_len(line);
    let ghost l = strip_cr(line@);
    proof {
        assert(l =~= line@.subrange(0, end as int));
    }
    let i = match crate::text::find_char(line, 0, end, '\t') {
        Some(i) => i,
        None => {
            proof {
                lemma_index_of_first_none(l, '\t');
            }
            return None;
        },
    };
    proof {
        lemma_index_of_first_is(l, '\t', i as int);
    }
    let date = match crate::date::parse_date_range(line, 0, i) {
        Some(d) => d,
        None => {
            proof {
                assert(l.subrange(0, i as int) =~= line@.subrange(0, i as int));
            }
            return None;
        },
    };
    let ghost tail = l.subrange(i + 1, l.len() as int);
    let j = match crate::text::find_char(line, i + 1, end, '\t') {
        Some(j) => j,
        None => {
            proof {
                assert(forall|q: int| 0 <= q < tail.len() ==> tail[q] != '\t');
                lemma_index_of_first_none(tail, '\t');
            }
            return None;
        },
    };
    proof {
        assert(tail[j - i - 1] == '\t');
        assert(forall|q: int| 0 <= q < j - i - 1 ==> tail[q] != '\t');
        lemma_index_of_first_is(tail, '\t', j - i - 1);
    }
    let habit = line.substring_char(i + 1, j).to_owned();
    let value = match crate::text::parse_u32_range(line, j + 1, end) {
        Some(v) => v,
        None => {
            proof {
                assert(l.subrange(j + 1, l.len() as int) =~= line@.subrange(
                    j + 1,
                    end as int,
                ));
            }
            return None;
        },
    };
    proof {
        assert(l.subrange(0, i as int) =~= line@.subrange(0, i as int));
        assert(l.subrange(j + 1, l.len() as int) =~= line@.subrange(j + 1, end as int));
        assert(l.subrange(i + 1, j as int) =~= line@.subrange(i + 1, j as int));
    }
    Some(Entry { date, habit, value })
}

/// Parses a whole log text into its entries, in file order.
pub fn parse_log(s: &str) -> (r: Result<Vec<Entry>, ParseError>)
    ensures
        match r {
            Ok(es) => spec_log_entries(spec_lines(s@)) == Some(entry_views(es@)),
            Err(pe) => {
                &&& spec_log_entries(spec_lines(s@)) is None
                &&& match pe {
                    ParseError::LogLine(k) => {
                        let ls = spec_lines(s@);
                        &&& (k as int) < ls.len()
                        &&& strip_cr(ls[k as int]).len() > 0
                        &&& spec_parse_entry_line(ls[k as int]) is None
                        &&& forall|j: int|
                            0 <= j < k ==> (strip_cr(#[trigger] ls[j]).len() == 0
                                || spec_parse_entry_line(ls[j]) is Some)
                    },
                    ParseError::HabitLine(_) => false,
                }
            },
        },
{
    let lines = crate::text::split_lines(s);
    let ghost ls = spec_lines(s@);
    let mut out: Vec<Entry> = Vec::new();
    let mut k: usize = 0;
    proof {
        assert(ls.subrange(0, ls.len() as int) =~~= ls);
        assert(entry_views(out@) + Seq::<EntryV>::empty() =~= entry_views(out@));
    }
    while k < lines.len()
        invariant
            ls == spec_lines(s@),
            lines@.len() == ls.len(),
            forall|q: int| 0 <= q < ls.len() ==> #[trigger] lines@[q]@ == ls[q],
            k <= ls.len(),
            spec_log_entries(ls) == match spec_log_entries(
                ls.subrange(k as int, ls.len() as int),
            ) {
                Some(es2) => Some(entry_views(out@) + es2),
                None => None::<Seq<EntryV>>,
            },
            forall|j: int|
                0 <= j < k ==> (strip_cr(#[trigger] ls[j]).len() == 0 || spec_parse_entry_line(
                    ls[j],
                ) is Some),
        decreases ls.len() - k,
    {
        let ghost rem = ls.subrange(k as int, ls.len() as int);
        proof {
            assert(rem.drop_first() =~~= ls.subrange(k + 1, ls.len() as int));
            assert(rem[0] == ls[k as int]);
        }
        let line = &lines[k];
        if line_content_len(line.as_str()) == 0 {
            k = k + 1;
            continue;
        }
        match parse_entry_line(line.as_str()) {
            Some(e) => {
                let ghost ev = e@;
                out.push(e);
                proof {
                    assert(entry_views(out@) =~= entry_views(out@.drop_last()).push(ev));
                    if spec_log_entries(rem.drop_first()) is Some {
                        let es2 = spec_log_entries(rem.drop_first())->Some_0;
                        assert(entry_views(out@.drop_last()) + (seq![ev] + es2) =~= entry_views(
                            out@,
                        ) + es2);
                    }
                }
                k = k + 1;
            },
            None => {
                proof {
                    assert(spec_parse_entry_line(rem[0]) is None);
                    assert(spec_log_entries(rem) is None);
                    assert(spec_log_entries(ls) is None);
                }
                return Err(ParseError::LogLine(k));
            },
        }
    }
    proof {
        assert(ls.subrange(k as int, ls.len() as int) =~~= Seq::<Seq<char>>::empty());
        assert(entry_views(out@) + Seq::<EntryV>::empty() =~= entry_views(out@));
    }
    Ok(out)
}

/// The one line that stores an entry.
pub open spec fn spec_entry_line(e: EntryV) -> Seq<char> {
    spec_date_chars(e.date) + seq!['\t'] + e.habit + seq!['\t'] + spec_u32_string(e.value as int)
}

/// The text that appends `e` to a log whose last entry has date
/// `last`: a blank separator line when the day changes, then the
/// entry's line, newline-terminated.
pub open spec fn spec_append_text(last: Option<Date>, e: EntryV) -> Seq<char> {
    let sep: Seq<char> = match last {
        Some(ld) => if ld != e.date {
            seq!['\n']
        } else {
            Seq::<char>::empty()
        },
        None => Seq::<char>::empty(),
    };
    sep + spec_entry_line(e) + seq!['\n']
}

/// Builds the text that appends `e` to the log, inserting a blank
/// separator line exactly when `last` (the date of the last entry now
/// in the log) differs from the entry's date.
pub fn append_text(last: Option<&Date>, e: &Entry) -> (r: String)
    requires
        e.date.valid(),
    ensures
        r@ == spec_append_text(
            match last {
                Some(d) => Some(*d),
                None => None,
            },
            e@,
        ),
{
    let mut v: Vec<char> = Vec::new();
    match last {
        Some(d) => {
            if d.year != e.date.year || d.month != e.date.month || d.day != e.date.day {
                v.push('\n');
            }
        },
        None => {},
    }
    let ghost sep = v@;
    crate::date::push_date_chars(&mut v, &e.date);
    v.push('\t');
    let hs = e.habit.as_str();
    let hn = hs.unicode_len();
    let mut q: usize = 0;
    while q < hn
        invariant
            q <= hn == hs@.len(),
            v@ == sep + spec_date_chars(e.date) + seq!['\t'] + hs@.subrange(0, q as int),
        decreases hn - q,
    {
        v.push(hs.get_char(q));
        assert(v@ =~= sep + spec_date_chars(e.date) + seq!['\t'] + hs@.subrange(0, q + 1));
        q = q + 1;
    }
    proof {
        assert(hs@.subrange(0, hn as int) =~= hs@);
    }
    v.push('\t');
    crate::text::push_u32_chars(&mut v, e.value);
    v.push('\n');
    let r = crate::text::string_of_chars(&v);
    proof {
        assert(r@ =~= spec_append_text(
            match last {
                Some(d) => Some(*d),
                None => None,
            },
            e@,
        ));
    }
    r
}

/// The line that stores a well-formed entry parses back to exactly
/// that entry, and contains no newline.
pub proof fn lemma_entry_line_round_trip(e: EntryV)
    requires
        e.date.valid(),
        habit_name_ok(e.habit),
    ensures
        spec_parse_entry_line(spec_entry_line(e)) == Some(e),
        spec_entry_line(e).len() > 0,
        forall|i: int| 0 <= i < spec_entry_line(e).len() ==> #[trigger] spec_entry_line(e)[i]
            != '\n',
{
    let dc = spec_date_chars(e.date);
    let vs = spec_u32_string(e.value as int);
    let line = spec_entry_line(e);
    let hlen = e.habit.len() as int;
    crate::date::lemma_date_round_trip(e.date);
    crate::text::lemma_u32_string_val(e.value as int);
    assert(line.len() == 10 + 1 + hlen + 1 + vs.len());
    assert(forall|i: int| 0 <= i < 10 ==> line[i] == dc[i]);
    assert(line[10] == '\t');
    assert(forall|i: int| 0 <= i < hlen ==> line[11 + i] == e.habit[i]);
    assert(line[11 + hlen] == '\t');
    assert(forall|i: int| 0 <= i < vs.len() ==> line[12 + hlen + i] == vs[i]);
    // no newline anywhere, and the last character is a digit
    assert(forall|i: int| 0 <= i < vs.len() ==> is_digit(#[trigger] vs[i]));
    assert(forall|i: int| 0 <= i < line.len() ==> #[trigger] line[i] != '\n');
    assert(is_digit(line.last()));
    assert(line.last() != '\r');
    assert(strip_cr(line) == line);
    // the first tab is right after the date
    lemma_index_of_first_is(line, '\t', 10);
    // the second tab is right after the habit name
    let tail = line.subrange(11, line.len() as int);
    assert(tail[hlen] == '\t');
    assert(forall|q: int| 0 <= q < hlen ==> tail[q] == e.habit[q]);
    assert(forall|q: int| 0 <= q < hlen ==> tail[q] != '\t');
    lemma_index_of_first_is(tail, '\t', hlen);
    let j = 11 + hlen;
    assert(line.subrange(0, 10) =~= dc);
    assert(line.subrange(11, j) =~= e.habit);
    assert(line.subrange(j + 1, line.len() as int) =~= vs);
    assert(dec_val(vs) == e.value && all_digits(vs) && vs.len() >= 1);
    assert(spec_parse_u32(vs) == Some(e.value));
    let got = spec_parse_entry_line(line);
    assert(got == Some(EntryV { date: e.date, habit: e.habit, value: e.value }));
    assert(EntryV { date: e.date, habit: e.habit, value: e.value } == e);
}

/// Entries of concatenated line lists: the two entry lists, in order.
proof fn lemma_log_entries_concat(a: Seq<Seq<char>>, b: Seq<Seq<char>>)
    requires
        spec_log_entries(a) is Some,
        spec_log_entries(b) is Some,
    ensures
        spec_log_entries(a + b) == Some(
            spec_log_entries(a)->Some_0 + spec_log_entries(b)->Some_0,
        ),
    decreases a.len(),
{
    if a.len() == 0 {
        assert(a + b =~~= b);
        assert(spec_log_entries(a)->Some_0 + spec_log_entries(b)->Some_0 =~= spec_log_entries(
            b,
        )->Some_0);
    } else {
        assert((a + b).drop_first() =~~= a.drop_first() + b);
        assert((a + b)[0] == a[0]);
        lemma_log_entries_concat(a.drop_first(), b);
        if strip_cr(a[0]).len() == 0 {
        } else {
            let e0 = spec_parse_entry_line(a[0])->Some_0;
            let ra = spec_log_entries(a.drop_first())->Some_0;
            let rb = spec_log_entries(b)->Some_0;
            assert(seq![e0] + (ra + rb) =~= (seq![e0] + ra) + rb);
        }
    }
}

/// A line that is blank (apart from a carriage return) changes no
/// entry list, wherever it is appended.
proof fn lemma_log_entries_snoc_blank(a: Seq<Seq<char>>, l: Seq<char>)
    requires
        strip_cr(l).len() == 0,
    ensures
        spec_log_entries(a.push(l)) == spec_log_entries(a),
    decreases a.len(),
{
    if a.len() == 0 {
        assert(a.push(l).drop_first() =~~= Seq::<Seq<char>>::empty());
        assert(spec_log_entries(Seq::<Seq<char>>::empty()) == Some(Seq::<EntryV>::empty()));
    } else {
        assert(a.push(l).drop_first() =~~= a.drop_first().push(l));
        assert(a.push(l)[0] == a[0]);
        lemma_log_entries_snoc_blank(a.drop_first(), l);
    }
}

proof fn lemma_append_lines_entries(last: Option<Date>, e: EntryV)
    requires
        e.date.valid(),
        habit_name_ok(e.habit),
    ensures
        spec_log_entries(spec_lines(spec_append_text(last, e))) == Some(seq![e]),
        spec_append_text(last, e).len() >= 1,
        spec_append_text(last, e).last() == '\n',
{
    let t = spec_append_text(last, e);
    let line = spec_entry_line(e);
    lemma_entry_line_round_trip(e);
    let emptyl = Seq::<char>::empty();
    let l0 = Seq::<Seq<char>>::empty();
    assert(spec_log_entries(l0) == Some(Seq::<EntryV>::empty()));
    let l1 = seq![emptyl];
    assert(l1.drop_first() =~~= l0);
    assert(strip_cr(l1[0]).len() == 0);
    assert(spec_log_entries(l1) == Some(Seq::<EntryV>::empty()));
    let l2 = seq![line, emptyl];
    assert(l2.drop_first() =~~= l1);
    assert(l2[0] == line);
    assert(strip_cr(line).len() > 0);
    assert(spec_log_entries(l2) == Some(seq![e] + Seq::<EntryV>::empty()));
    assert(seq![e] + Seq::<EntryV>::empty() =~= seq![e]);
    let sep_blank = !(match last {
        Some(ld) => ld != e.date,
        None => false,
    });
    if sep_blank {
        assert(t =~= line + seq!['\n']);
        assert(t[line.len() as int] == '\n');
        assert(forall|q: int| 0 <= q < line.len() ==> t[q] == line[q]);
        crate::text::lemma_lines_head(t, line.len() as int);
        assert(t.subrange(0, line.len() as int) =~= line);
        assert(t.subrange(line.len() as int + 1, t.len() as int) =~= emptyl);
        assert(spec_lines(emptyl) =~~= l1);
        assert(spec_lines(t) =~~= l2);
    } else {
        assert(t =~= seq!['\n'] + line + seq!['\n']);
        assert(t[0] == '\n');
        crate::text::lemma_lines_head(t, 0);
        let t2 = t.subrange(1, t.len() as int);
        assert(t2 =~= line + seq!['\n']);
        assert(t2[line.len() as int] == '\n');
        assert(forall|q: int| 0 <= q < line.len() ==> t2[q] == line[q]);
        crate::text::lemma_lines_head(t2, line.len() as int);
        assert(t2.subrange(0, line.len() as int) =~= line);
        assert(t2.subrange(line.len() as int + 1, t2.len() as int) =~= emptyl);
        assert(spec_lines(emptyl) =~~= l1);
        assert(spec_lines(t2) =~~= l2);
        let l3 = seq![emptyl] + l2;
        assert(spec_lines(t) =~~= l3);
        assert(l3.drop_first() =~~= l2);
        assert(strip_cr(l3[0]).len() == 0);
        assert(spec_log_entries(l3) == spec_log_entries(l2));
    }
}

/// Appending an entry to a well-formed log text and re-reading the
/// whole log yields the old entries followed by exactly that entry.
pub proof fn lemma_append_round_trip(s: Seq<char>, last: Option<Date>, e: EntryV)
    requires
        spec_log_entries(spec_lines(s)) is Some,
        s.len() == 0 || s.last() == '\n',
        e.date.valid(),
        habit_name_ok(e.habit),
    ensures
        spec_log_entries(spec_lines(s + spec_append_text(last, e))) == Some(
            (spec_log_entries(spec_lines(s))->Some_0).push(e),
        ),
{
    let t = spec_append_text(last, e);
    let es = spec_log_entries(spec_lines(s))->Some_0;
    lemma_append_lines_entries(last, e);
    if s.len() == 0 {
        assert(s + t =~= t);
        assert(spec_lines(s) =~~= seq![Seq::<char>::empty()]);
        assert(spec_lines(s).drop_first() =~~= Seq::<Seq<char>>::empty());
        assert(spec_log_entries(Seq::<Seq<char>>::empty()) == Some(Seq::<EntryV>::empty()));
        assert(es =~= Seq::<EntryV>::empty());
        assert(seq![e] =~= es.push(e));
    } else {
        crate::text::lemma_lines_concat(s, t);
        crate::text::lemma_lines_last(s);
        let d = spec_lines(s).drop_last();
        assert(spec_lines(s) =~~= d.push(Seq::<char>::empty()));
        lemma_log_entries_snoc_blank(d, Seq::<char>::empty());
        assert(spec_log_entries(d) == Some(es));
        lemma_log_entries_concat(d, spec_lines(t));
        assert(spec_log_entries(d + spec_lines(t)) == Some(es + seq![e]));
        assert(es + seq![e] =~= es.push(e));
    }
}

/// Every entry a log text parses to carries a valid calendar date:
/// the date grammar admits nothing else.
pub proof fn lemma_log_entries_dates_valid(lines: Seq<Seq<char>>)
    ensures
        match spec_log_entries(lines) {
            Some(es) => forall|i: int| 0 <= i < es.len() ==> (#[trigger] es[i]).date.valid(),
            None => true,
        },
    decreases lines.len(),
{
    if lines.len() > 0 {
        lemma_log_entries_dates_valid(lines.drop_first());
        if strip_cr(lines[0]).len() != 0 {
            match (spec_parse_entry_line(lines[0]), spec_log_entries(lines.drop_first())) {
                (Some(e), Some(es)) => {
                    assert(e.date.valid());
                    let all = seq![e] + es;
                    assert forall|i: int| 0 <= i < all.len() implies (#[trigger] all[i]).date.valid()
                        by {
                        if i > 0 {
                            assert(all[i] == es[i - 1]);
                        }
                    }
                },
                _ => {},
            }
        }
    }
}

/// The date of the first entry, if any.
pub fn first_date(entries: &Vec<Entry>) -> (r: Option<Date>)
    ensures
        match r {
            Some(d) => entries@.len() > 0 && d == entries@[0].date,
            None => entries@.len() == 0,
        },
{
    if entries.len() == 0 {
        None
    } else {
        Some(entries[0].date)
    }
}

/// The date of the last entry, if any.
pub fn last_date(entries: &Vec<Entry>) -> (r: Option<Date>)
    ensures
        match r {
            Some(d) => entries@.len() > 0 && d == entries@[entries@.len() - 1].date,
            None => entries@.len() == 0,
        },
{
    if entries.len() == 0 {
        None
    } else {
        Some(entries[entries.len() - 1].date)
    }
}

} // verus!
