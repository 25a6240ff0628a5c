//! The todo resolver: which habits lack an entry for a given day.

use vstd::prelude::*;
use crate::date::Date;
use crate::index::Group;
use crate::index::GroupV;
use crate::index::index_views;
use crate::model::Habit;
use crate::model::HabitV;
use crate::model::habit_views;
use crate::score::spec_habit_items;

verus! {

/// Whether the index holds an entry for this habit name on this date.
pub open spec fn spec_has_entry_on(idx: Seq<GroupV>, name: Seq<char>, date: Date) -> bool {
    exists|i: int|
        0 <= i < spec_habit_items(idx, name).len() && (#[trigger] spec_habit_items(idx, name)[i]).0
            == date
}

/// A habit is pending on a date iff the index has no entry for it on
/// that exact date.
pub open spec fn spec_pending(h: HabitV, idx: Seq<GroupV>, date: Date) -> bool {
    !spec_has_entry_on(idx, h.name, date)
}

fn has_entry_on(idx: &Vec<Group>, name: &String, date: &Date) -> (r: bool)
    ensures
        r == spec_has_entry_on(index_views(idx@), name@, *date),
{
    let ghost iv = index_views(idx@);
    let items = match crate::index::group_pos(idx, name) {
        Some(p) => {
            proof {
                crate::index::lemma_group_pos_props(iv, name@);
            }
            &idx[p].items
        },
        None => {
            proof {
                assert(spec_habit_items(iv, name@) =~= Seq::<(Date, u32)>::empty());
            }
            return false;
        },
    };
    let ghost its = spec_habit_items(iv, name@);
    let mut i: usize = 0;
    while i < items.len()
        invariant
            its == items@,
            its == spec_habit_items(index_views(idx@), name@),
            i <= items@.len(),
            forall|q: int| 0 <= q < i ==> (#[trigger] its[q]).0 != *date,
        decreases items@.len() - i,
    {
        if items[i].0 == *date {
            return true;
        }
        i = i + 1;
    }
    false
}

/// The habits pending on a date, in registry order.
pub fn pending(date: &Date, habits: &Vec<Habit>, idx: &Vec<Group>) -> (r: Vec<Habit>)
    ensures
        habit_views(r@) == habit_views(habits@).filter(
            |h: HabitV| spec_pending(h, index_views(idx@), *date),
        ),
{
    let ghost hv = habit_views(habits@);
    let ghost iv = index_views(idx@);
    let ghost pred = |h: HabitV| spec_pending(h, iv, *date);
    let mut out: Vec<Habit> = Vec::new();
    let mut k: usize = 0;
    proof {
        assert(hv.subrange(0, 0) =~= Seq::<HabitV>::empty());
        assert(habit_views(out@) =~= hv.subrange(0, 0).filter(pred));
    }
    while k < habits.len()
        invariant
            hv == habit_views(habits@),
            iv == index_views(idx@),
            pred == (|h: HabitV| spec_pending(h, iv, *date)),
            hv.len() == habits@.len(),
            k <= habits@.len(),
            habit_views(out@) == hv.subrange(0, k as int).filter(pred),
        decreases habits@.len() - k,
    {
        let ghost pre = hv.subrange(0, k as int);
        let ghost cur = hv.subrange(0, k + 1);
        proof {
            assert(cur.drop_last() =~= pre);
            assert(cur.last() == habits@[k as int]@);
            reveal(Seq::filter);
        }
        let h = &habits[k];
        if !has_entry_on(idx, &h.name, date) {
            out.push(h.duplicate());
            proof {
                assert(habit_views(out@) =~= habit_views(out@.drop_last()).push(h@));
            }
        }
        k = k + 1;
    }
    proof {
        assert(hv.subrange(0, hv.len() as int) =~= hv);
    }
    out
}

/// The habits due on a date: pending ones with a periodicity target
/// (`every_days >= 1`); pure-tracking habits are never due.
pub fn pending_due(date: &Date, habits: &Vec<Habit>, idx: &Vec<Group>) -> (r: Vec<Habit>)
    ensures
        habit_views(r@) == habit_views(habits@).filter(
            |h: HabitV| spec_pending(h, index_views(idx@), *date) && h.every_days >= 1,
        ),
{
    let ghost hv = habit_views(habits@);
    let ghost iv = index_views(idx@);
    let ghost pred = |h: HabitV| spec_pending(h, iv, *date) && h.every_days >= 1;
    let mut out: Vec<Habit> = Vec::new();
    let mut k: usize = 0;
    proof {
        assert(hv.subrange(0, 0) =~= Seq::<HabitV>::empty());
        assert(habit_views(out@) =~= hv.subrange(0, 0).filter(pred));
    }
    while k < habits.len()
        invariant
            hv == habit_views(habits@),
            iv == index_views(idx@),
            pred == (|h: HabitV| spec_pending(h, iv, *date) && h.every_days >= 1),
            hv.len() == habits@.len(),
            k <= habits@.len(),
            habit_views(out@) == hv.subrange(0, k as int).filter(pred),
        decreases habits@.len() - k,
    {
        let ghost pre = hv.subrange(0, k as int);
        let ghost cur = hv.subrange(0, k + 1);
        proof {
            assert(cur.drop_last() =~= pre);
            assert(cur.last() == habits@[k as int]@);
            reveal(Seq::filter);
        }
        let h = &habits[k];
        if h.every_days >= 1 && !has_entry_on(idx, &h.name, date) {
            out.push(h.duplicate());
            proof {
                assert(habit_views(out@) =~= habit_views(out@.drop_last()).push(h@));
            }
        }
        k = k + 1;
    }
    proof {
        assert(hv.subrange(0, hv.len() as int) =~= hv);
    }
    out
}

} // verus!
