//! The interactive backfill loop's decisions: what one line of user
//! input means for a habit with a given range, and how far back the
//! loop should start. The prompting itself is terminal work and stays
//! outside the library; it records a value only on `Record`.

use vstd::prelude::*;
use vstd::string::StrSliceExecFns;
use crate::date::Date;
use crate::date::spec_day_number;
use crate::registry::is_space;
use crate::registry::spec_trim_end;
use crate::text::spec_parse_u32;

verus! {

/// What one prompt answer decides.
#[derive(PartialEq, Eq, Structural, Debug)]
pub enum InputAction {
    /// An empty line: skip this habit, write nothing.
    Skip,
    /// A value within the habit's range: record it.
    Record(u32),
    /// Anything else: ask again, write nothing.
    Reprompt,
}

/// The decision for an input line: empty input skips; an integer
/// within `[0, range]` (after trailing blanks are dropped) is
/// recorded; everything else re-prompts.
pub open spec fn spec_decide_input(input: Seq<char>, range: u32) -> InputAction {
    if input.len() == 0 {
        InputAction::Skip
    } else {
        match spec_parse_u32(spec_trim_end(input)) {
            Some(v) => if v <= range {
                InputAction::Record(v)
            } else {
                InputAction::Reprompt
            },
            None => InputAction::Reprompt,
        }
    }
}

fn exec_is_blank(c: char) -> (r: bool)
    ensures
        r == is_space(c),
{
    c == ' ' || c == '\t' || c == '\r'
}

/// Decides one prompt answer. Nothing is ever recorded for an empty
/// line, nor for input that is not an integer in `[0, range]`.
pub fn decide_input(input: &str, range: u32) -> (r: InputAction)
    ensures
        r == spec_decide_input(input@, range),
        input@.len() == 0 ==> r == InputAction::Skip,
        (forall|v: u32| spec_parse_u32(spec_trim_end(input@)) != Some(v))
            ==> input@.len() == 0 || r == InputAction::Reprompt,
        (match spec_parse_u32(spec_trim_end(input@)) {
            Some(v) => v > range,
            None => false,
        }) ==> r == InputAction::Reprompt,
{
    let n = input.unicode_len();
    if n == 0 {
        return InputAction::Skip;
    }
    let mut b: usize = n;
    while b > 0 && exec_is_blank(input.get_char(b - 1))
        invariant
            b <= n == input@.len(),
            forall|j: int| b <= j < n ==> is_space(#[trigger] input@[j]),
        decreases b,
    {
        b = b - 1;
    }
    proof {
        crate::registry::lemma_trim_end_at(input@, b as int);
    }
    match crate::text::parse_u32_range(input, 0, b) {
        Some(v) => {
            proof {
                assert(input@.subrange(0, b as int) == spec_trim_end(input@));
            }
            if v <= range {
                InputAction::Record(v)
            } else {
                InputAction::Reprompt
            }
        },
        None => {
            proof {
                assert(input@.subrange(0, b as int) == spec_trim_end(input@));
            }
            InputAction::Reprompt
        },
    }
}

/// How many days back the loop starts: at most a week, never before
/// the first logged entry, and a single day when the log is empty.
pub fn lookback_days(today: &Date, first: Option<&Date>) -> (r: u32)
    requires
        today.valid(),
        match first {
            Some(d) => d.valid(),
            None => true,
        },
    ensures
        r == match first {
            Some(d) => {
                let diff = spec_day_number(*today) - spec_day_number(*d);
                if diff <= 0 {
                    0int
                } else if diff >= 7 {
                    7int
                } else {
                    diff
                }
            },
            None => 1int,
        },
{
    match first {
        Some(d) => {
            let t = crate::date::day_number(today);
            let f = crate::date::day_number(d);
            if t <= f {
                0
            } else if t - f >= 7 {
                7
            } else {
                t - f
            }
        },
        None => 1,
    }
}

} // verus!
