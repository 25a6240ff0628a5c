//! Case-insensitive habit filtering for the report: a habit is shown
//! when no filter is given, or when some filter is a substring of its
//! name, comparing characters with ASCII letters folded to lower case.

use vstd::prelude::*;
use vstd::string::StrSliceExecFns;
use crate::model::Habit;
use crate::model::HabitV;
use crate::model::habit_views;

verus! {

/// A character's identity for case-insensitive comparison: its code,
/// with ASCII capitals folded to lower case.
pub open spec fn lower_val(c: char) -> int {
    if 65 <= c as u32 <= 90 {
        c as u32 + 32
    } else {
        c as u32 as int
    }
}

pub open spec fn lower_seq(s: Seq<char>) -> Seq<int> {
    s.map_values(|c: char| lower_val(c))
}

/// Whether `f` occurs in `name`, ignoring ASCII case.
pub open spec fn spec_contains_ci(name: Seq<char>, f: Seq<char>) -> bool {
    exists|p: int|
        0 <= p && p + f.len() <= name.len() && #[trigger] lower_seq(name).subrange(
            p,
            p + f.len() as int,
        ) == lower_seq(f)
}

/// Whether a habit is shown under the given filters.
pub open spec fn spec_shown(h: HabitV, fs: Seq<Seq<char>>) -> bool {
    fs.len() == 0 || exists|k: int| 0 <= k < fs.len() && spec_contains_ci(h.name, #[trigger] fs[k])
}

fn lower_u32(c: char) -> (r: u32)
    ensures
        r == lower_val(c),
{
    let n = c as u32;
    if 65 <= n && n <= 90 {
        n + 32
    } else {
        n
    }
}

fn match_at(name: &str, f: &str, p: usize) -> (r: bool)
    requires
        p + f@.len() <= name@.len(),
        name@.len() <= usize::MAX,
    ensures
        r == (lower_seq(name@).subrange(p as int, p + f@.len() as int) == lower_seq(f@)),
{
    let m = f.unicode_len();
    let mut i: usize = 0;
    while i < m
        invariant
            p + m <= name@.len(),
            name@.len() <= usize::MAX,
            m == f@.len(),
            i <= m,
            forall|q: int|
                0 <= q < i ==> lower_val(#[trigger] name@[p + q]) == lower_val(f@[q]),
        decreases m - i,
    {
        if lower_u32(name.get_char(p + i)) != lower_u32(f.get_char(i)) {
            proof {
                let a = lower_seq(name@).subrange(p as int, p + f@.len() as int);
                let b = lower_seq(f@);
                assert(a[i as int] != b[i as int]);
            }
            return false;
        }
        i = i + 1;
    }
    proof {
        let a = lower_seq(name@).subrange(p as int, p + f@.len() as int);
        let b = lower_seq(f@);
        assert forall|q: int| 0 <= q < m implies a[q] == b[q] by {
            assert(a[q] == lower_val(name@[p + q]));
            assert(b[q] == lower_val(f@[q]));
        }
        assert(a =~= b);
    }
    true
}

/// Whether `f` occurs in `name`, ignoring ASCII case.
pub fn contains_ci(name: &str, f: &str) -> (r: bool)
    ensures
        r == spec_contains_ci(name@, f@),
{
    let n = name.unicode_len();
    let m = f.unicode_len();
    if m > n {
        return false;
    }
    if m == 0 {
        proof {
            assert(lower_seq(name@).subrange(0, 0 + f@.len() as int) =~= lower_seq(f@));
        }
        return true;
    }
    let mut p: usize = 0;
    while p <= n - m
        invariant
            1 <= m <= n == name@.len(),
            m == f@.len(),
            p <= n - m + 1,
            forall|q: int|
                0 <= q < p ==> #[trigger] lower_seq(name@).subrange(q, q + f@.len() as int)
                    != lower_seq(f@),
        decreases n + 1 - p,
    {
        if match_at(name, f, p) {
            return true;
        }
        p = p + 1;
    }
    false
}

/// The views of the filter strings.
pub open spec fn filter_views(fs: Seq<String>) -> Seq<Seq<char>> {
    fs.map_values(|f: String| f@)
}

/// The habits the report shows under the given filters, in registry
/// order: all of them when no filter is given, else those whose name
/// contains some filter, ignoring ASCII case.
pub fn filter_habits(habits: &Vec<Habit>, filters: &Vec<String>) -> (r: Vec<Habit>)
    ensures
        habit_views(r@) == habit_views(habits@).filter(
            |h: HabitV| spec_shown(h, filter_views(filters@)),
        ),
{
    let ghost hv = habit_views(habits@);
    let ghost fv = filter_views(filters@);
    let ghost pred = |h: HabitV| spec_shown(h, fv);
    let mut out: Vec<Habit> = Vec::new();
    let mut k: usize = 0;
    proof {
        assert(hv.subrange(0, 0) =~= Seq::<HabitV>::empty());
        assert(habit_views(out@) =~= hv.subrange(0, 0).filter(pred));
    }
    while k < habits.len()
        invariant
            hv == habit_views(habits@),
            fv == filter_views(filters@),
            pred == (|h: HabitV| spec_shown(h, fv)),
            fv.len() == filters@.len(),
            hv.len() == habits@.len(),
            k <= habits@.len(),
            habit_views(out@) == hv.subrange(0, k as int).filter(pred),
        decreases habits@.len() - k,
    {
        let ghost pre = hv.subrange(0, k as int);
        let ghost cur = hv.subrange(0, k + 1);
        proof {
            assert(cur.drop_last() =~= pre);
            assert(cur.last() == habits@[k as int]@);
            reveal(Seq::filter);
        }
        let h = &habits[k];
        let mut show = filters.len() == 0;
        let mut q: usize = 0;
        while q < filters.len()
            invariant
                fv == filter_views(filters@),
                fv.len() == filters@.len(),
                k < habits@.len(),
                hv == habit_views(habits@),
                hv.len() == habits@.len(),
                show == (filters@.len() == 0 || exists|j: int|
                    0 <= j < q && spec_contains_ci(habits@[k as int]@.name, #[trigger] fv[j])),
                q <= filters@.len(),
                h@ == habits@[k as int]@,
            decreases filters@.len() - q,
        {
            let c = contains_ci(h.name.as_str(), filters[q].as_str());
            proof {
                assert(fv[q as int] == filters@[q as int]@);
            }
            if c {
                show = true;
                proof {
                    assert(spec_contains_ci(habits@[k as int]@.name, fv[q as int]));
                }
            } else {
                proof {
                    assert(!spec_contains_ci(habits@[k as int]@.name, fv[q as int]));
                }
            }
            q = q + 1;
        }
        if show {
            out.push(h.duplicate());
            proof {
                assert(habit_views(out@) =~= habit_views(out@.drop_last()).push(h@));
            }
        }
        k = k + 1;
    }
    proof {
        assert(hv.subrange(0, hv.len() as int) =~= hv);
    }
    out
}

} // verus!
