//! The habit registry: parsing habit definitions.
//!
//! Each non-blank, non-comment line reads `<every_days> <range> <name>`:
//! two decimal fields, then the rest of the line (the name, which may
//! contain spaces). Lines are trimmed of surrounding blanks first;
//! comment lines start with `#`.

use vstd::prelude::*;
use vstd::string::StrSliceExecFns;
use vstd::string::StringExecFns;
use crate::log::strip_cr;
use crate::model::Habit;
use crate::model::HabitV;
use crate::model::ParseError;
use crate::model::habit_views;
use crate::text::spec_lines;
use crate::text::spec_parse_u32;

verus! {

pub open spec fn is_space(c: char) -> bool {
    c == ' ' || c == '\t' || c == '\r'
}

pub open spec fn spec_trim_start(s: Seq<char>) -> Seq<char>
    decreases s.len(),
{
    if s.len() > 0 && is_space(s[0]) {
        spec_trim_start(s.drop_first())
    } else {
        s
    }
}

pub open spec fn spec_trim_end(s: Seq<char>) -> Seq<char>
    decreases s.len(),
{
    if s.len() > 0 && is_space(s.last()) {
        spec_trim_end(s.drop_last())
    } else {
        s
    }
}

/// `s` without leading and trailing blanks.
pub open spec fn spec_trim(s: Seq<char>) -> Seq<char> {
    spec_trim_end(spec_trim_start(s))
}

proof fn lemma_trim_start_at(s: Seq<char>, a: int)
    requires
        0 <= a <= s.len(),
        forall|j: int| 0 <= j < a ==> is_space(#[trigger] s[j]),
        a == s.len() || !is_space(s[a]),
    ensures
        spec_trim_start(s) == s.subrange(a, s.len() as int),
    decreases a,
{
    if a == 0 {
        if s.len() == 0 {
            assert(s.subrange(0, 0) =~= s);
        } else {
            assert(s.subrange(0, s.len() as int) =~= s);
        }
    } else {
        let d = s.drop_first();
        lemma_trim_start_at(d, a - 1);
        assert(d.subrange(a - 1, d.len() as int) =~= s.subrange(a, s.len() as int));
    }
}

pub proof fn lemma_trim_end_at(s: Seq<char>, b: int)
    requires
        0 <= b <= s.len(),
        forall|j: int| b <= j < s.len() ==> is_space(#[trigger] s[j]),
        b == 0 || !is_space(s[b - 1]),
    ensures
        spec_trim_end(s) == s.subrange(0, b),
    decreases s.len() - b,
{
    if b == s.len() {
        if s.len() == 0 || !is_space(s.last()) {
            assert(s.subrange(0, s.len() as int) =~= s);
        } else {
            assert(false);
        }
    } else {
        let d = s.drop_last();
        lemma_trim_end_at(d, b);
        assert(d.subrange(0, b) =~= s.subrange(0, b));
    }
}

fn exec_is_space(c: char) -> (r: bool)
    ensures
        r == is_space(c),
{
    c == ' ' || c == '\t' || c == '\r'
}

/// The bounds of the trimmed middle of `s[0..end]`: the least and
/// one-past-greatest indices of non-blank characters.
fn trim_bounds(s: &str, end: usize) -> (r: (usize, usize))
    requires
        end <= s@.len(),
    ensures
        r.0 <= r.1 <= end,
        spec_trim(s@.subrange(0, end as int)) == s@.subrange(r.0 as int, r.1 as int),
{
    let ghost l = s@.subrange(0, end as int);
    let mut a: usize = 0;
    while a < end && exec_is_space(s.get_char(a))
        invariant
            a <= end <= s@.len(),
            l == s@.subrange(0, end as int),
            forall|j: int| 0 <= j < a ==> is_space(#[trigger] l[j]),
        decreases end - a,
    {
        a = a + 1;
    }
    proof {
        lemma_trim_start_at(l, a as int);
    }
    let ghost m = l.subrange(a as int, end as int);
    let mut b: usize = end;
    while b > a && exec_is_space(s.get_char(b - 1))
        invariant
            a <= b <= end <= s@.len(),
            l == s@.subrange(0, end as int),
            m == l.subrange(a as int, end as int),
            forall|j: int| b <= j < end ==> is_space(#[trigger] l[j]),
        decreases b,
    {
        b = b - 1;
    }
    proof {
        assert(forall|j: int| b - a <= j < m.len() ==> is_space(#[trigger] m[j]));
        lemma_trim_end_at(m, b - a);
        assert(m.subrange(0, b - a) =~= s@.subrange(a as int, b as int));
    }
    (a, b)
}

/// What one registry line parses to, once trimmed: two decimal fields
/// split off at the line's first two spaces, then the name verbatim.
pub open spec fn spec_parse_habit_line(raw: Seq<char>) -> Option<HabitV> {
    let t = spec_trim(strip_cr(raw));
    match t.index_of_first(' ') {
        None => None,
        Some(i) => match t.subrange(i + 1, t.len() as int).index_of_first(' ') {
            None => None,
            Some(k) => {
                let j = i + 1 + k;
                match (spec_parse_u32(t.subrange(0, i)), spec_parse_u32(t.subrange(i + 1, j))) {
                    (Some(ed), Some(rg)) => Some(
                        HabitV { every_days: ed, range: rg, name: t.subrange(j + 1, t.len() as int) },
                    ),
                    _ => None,
                }
            },
        },
    }
}

/// A line the registry ignores: blank, or a comment.
pub open spec fn spec_habit_line_skipped(raw: Seq<char>) -> bool {
    strip_cr(raw).len() == 0 || strip_cr(raw)[0] == '#'
}

/// What a list of registry lines parses to: the habits of the
/// non-ignored lines in file order, or nothing if one is malformed.
pub open spec fn spec_habits(lines: Seq<Seq<char>>) -> Option<Seq<HabitV>>
    decreases lines.len(),
{
    if lines.len() == 0 {
        Some(Seq::<HabitV>::empty())
    } else if spec_habit_line_skipped(lines[0]) {
        spec_habits(lines.drop_first())
    } else {
        match (spec_parse_habit_line(lines[0]), spec_habits(lines.drop_first())) {
            (Some(h), Some(hs)) => Some(seq![h] + hs),
            _ => None,
        }
    }
}

/// Parses one registry line (not blank, not a comment).
pub fn parse_habit_line(line: &str) -> (r: Option<Habit>)
    ensures
        match r {
            Some(h) => spec_parse_habit_line(line@) == Some(h@),
            None => spec_parse_habit_line(line@) is None,
        },
{
    let end = crate::log::line_content_len(line);
    proof {
        assert(strip_cr(line@) =~= line@.subrange(0, end as int));
    }
    let (a, b) = trim_bounds(line, end);
    let ghost t = spec_trim(strip_cr(line@));
    proof {
        assert(t == line@.subrange(a as int, b as int));
    }
    let i = match crate::text::find_char(line, a, b, ' ') {
        Some(i) => i,
        None => {
            proof {
                crate::log::lemma_index_of_first_none(t, ' ');
            }
            return None;
        },
    };
    proof {
        crate::log::lemma_index_of_first_is(t, ' ', i - a);
    }
    let ghost tail = t.subrange(i - a + 1, t.len() as int);
    let j = match crate::text::find_char(line, i + 1, b, ' ') {
        Some(j) => j,
        None => {
            proof {
                assert(forall|q: int| 0 <= q < tail.len() ==> tail[q] != ' ');
                crate::log::lemma_index_of_first_none(tail, ' ');
            }
            return None;
        },
    };
    proof {
        assert(tail[j - i - 1] == ' ');
        assert(forall|q: int| 0 <= q < j - i - 1 ==> tail[q] != ' ');
        crate::log::lemma_index_of_first_is(tail, ' ', j - i - 1);
    }
    let every_days = match crate::text::parse_u32_range(line, a, i) {
        Some(v) => v,
        None => {
            proof {
                assert(t.subrange(0, i - a) =~= line@.subrange(a as int, i as int));
            }
            return None;
        },
    };
    let range = match crate::text::parse_u32_range(line, i + 1, j) {
        Some(v) => v,
        None => {
            proof {
                assert(t.subrange(0, i - a) =~= line@.subrange(a as int, i as int));
                assert(t.subrange(i - a + 1, j - a) =~= line@.subrange(i + 1, j as int));
            }
            return None;
        },
    };
    let name = line.substring_char(j + 1, b).to_owned();
    proof {
        assert(t.subrange(0, i - a) =~= line@.subrange(a as int, i as int));
        assert(t.subrange(i - a + 1, j - a) =~= line@.subrange(i + 1, j as int));
        assert(t.subrange(j - a + 1, t.len() as int) =~= line@.subrange(j + 1, b as int));
    }
    Some(Habit { every_days, range, name })
}

/// Parses a whole registry text into its habits, in file order.
pub fn parse_habits(s: &str) -> (r: Result<Vec<Habit>, ParseError>)
    ensures
        match r {
            Ok(hs) => spec_habits(spec_lines(s@)) == Some(habit_views(hs@)),
            Err(pe) => {
                &&& spec_habits(spec_lines(s@)) is None
                &&& match pe {
                    ParseError::HabitLine(k) => {
                        let ls = spec_lines(s@);
                        &&& (k as int) < ls.len()
                        &&& !spec_habit_line_skipped(ls[k as int])
                        &&& spec_parse_habit_line(ls[k as int]) is None
                        &&& forall|j: int|
                            0 <= j < k ==> (spec_habit_line_skipped(#[trigger] ls[j])
                                || spec_parse_habit_line(ls[j]) is Some)
                    },
                    ParseError::LogLine(_) => false,
                }
            },
        },
{
    let lines = crate::text::split_lines(s);
    let ghost ls = spec_lines(s@);
    let mut out: Vec<Habit> = Vec::new();
    let mut k: usize = 0;
    proof {
        assert(ls.subrange(0, ls.len() as int) =~~= ls);
        assert(habit_views(out@) + Seq::<HabitV>::empty() =~= habit_views(out@));
    }
    while k < lines.len()
        invariant
            ls == spec_lines(s@),
            lines@.len() == ls.len(),
            forall|q: int| 0 <= q < ls.len() ==> #[trigger] lines@[q]@ == ls[q],
            k <= ls.len(),
            spec_habits(ls) == match spec_habits(ls.subrange(k as int, ls.len() as int)) {
                Some(hs2) => Some(habit_views(out@) + hs2),
                None => None::<Seq<HabitV>>,
            },
            forall|j: int|
                0 <= j < k ==> (spec_habit_line_skipped(#[trigger] ls[j])
                    || spec_parse_habit_line(ls[j]) is Some),
        decreases ls.len() - k,
    {
        let ghost rem = ls.subrange(k as int, ls.len() as int);
        proof {
            assert(rem.drop_first() =~~= ls.subrange(k + 1, ls.len() as int));
            assert(rem[0] == ls[k as int]);
        }
        let line = &lines[k];
        let clen = crate::log::line_content_len(line.as_str());
        if clen == 0 {
            k = k + 1;
            continue;
        }
        if line.as_str().get_char(0) == '#' {
            proof {
                assert(strip_cr(line@)[0] == '#');
            }
            k = k + 1;
            continue;
        }
        proof {
            assert(strip_cr(line@)[0] != '#');
            assert(!spec_habit_line_skipped(rem[0]));
        }
        match parse_habit_line(line.as_str()) {
            Some(h) => {
                let ghost hv = h@;
                out.push(h);
                proof {
                    assert(habit_views(out@) =~= habit_views(out@.drop_last()).push(hv));
                    if spec_habits(rem.drop_first()) is Some {
                        let hs2 = spec_habits(rem.drop_first())->Some_0;
                        assert(habit_views(out@.drop_last()) + (seq![hv] + hs2) =~= habit_views(
                            out@,
                        ) + hs2);
                    }
                }
                k = k + 1;
            },
            None => {
                proof {
                    assert(spec_parse_habit_line(rem[0]) is None);
                    assert(spec_habits(rem) is None);
                    assert(spec_habits(ls) is None);
                }
                return Err(ParseError::HabitLine(k));
            },
        }
    }
    proof {
        assert(ls.subrange(k as int, ls.len() as int) =~~= Seq::<Seq<char>>::empty());
        assert(habit_views(out@) + Seq::<HabitV>::empty() =~= habit_views(out@));
    }
    Ok(out)
}

} // verus!
