//! The data model: habits, log entries, and parse failures.

use vstd::prelude::*;
use crate::date::Date;

verus! {

/// One tracked habit. `every_days` is the periodicity window (0 means
/// pure tracking with no score target); `range` is the largest value
/// one entry may log (0 means boolean tracking with no numeric score).
pub struct Habit {
    pub every_days: u32,
    pub range: u32,
    pub name: String,
}

/// The mathematical image of a [`Habit`].
pub struct HabitV {
    pub every_days: u32,
    pub range: u32,
    pub name: Seq<char>,
}

impl View for Habit {
    type V = HabitV;

    open spec fn view(&self) -> HabitV {
        HabitV { every_days: self.every_days, range: self.range, name: self.name@ }
    }
}

impl Habit {
    /// A field-for-field copy.
    pub fn duplicate(&self) -> (r: Habit)
        ensures
            r@ == self@,
    {
        Habit { every_days: self.every_days, range: self.range, name: self.name.clone() }
    }
}

/// One dated, valued record of a habit's completion.
pub struct Entry {
    pub date: Date,
    pub habit: String,
    pub value: u32,
}

/// The mathematical image of an [`Entry`].
pub struct EntryV {
    pub date: Date,
    pub habit: Seq<char>,
    pub value: u32,
}

impl View for Entry {
    type V = EntryV;

    open spec fn view(&self) -> EntryV {
        EntryV { date: self.date, habit: self.habit@, value: self.value }
    }
}

impl Entry {
    /// A field-for-field copy.
    pub fn duplicate(&self) -> (r: Entry)
        ensures
            r@ == self@,
    {
        Entry { date: self.date, habit: self.habit.clone(), value: self.value }
    }
}

/// A habit name that the log's line format can carry verbatim.
pub open spec fn habit_name_ok(name: Seq<char>) -> bool {
    forall|i: int| 0 <= i < name.len() ==> #[trigger] name[i] != '\t' && name[i] != '\n'
}

/// The views of a sequence of entries.
pub open spec fn entry_views(es: Seq<Entry>) -> Seq<EntryV> {
    es.map_values(|e: Entry| e@)
}

/// The views of a sequence of habits.
pub open spec fn habit_views(hs: Seq<Habit>) -> Seq<HabitV> {
    hs.map_values(|h: Habit| h@)
}

/// A malformed line, with its zero-based line number.
#[derive(Debug)]
pub enum ParseError {
    HabitLine(usize),
    LogLine(usize),
}

} // verus!
