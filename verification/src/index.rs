//! The derived log index: a read-optimized grouping of the entries by
//! habit name, keeping first-occurrence group order and file order
//! within each group. The log itself stays authoritative; the index is
//! recomputed from the full entry sequence on every load.

use vstd::prelude::*;
use crate::date::Date;
use crate::model::Entry;
use crate::model::EntryV;
use crate::model::entry_views;

verus! {

/// The entries of one habit: its name and its (date, value) pairs in
/// file order.
pub struct Group {
    pub name: String,
    pub items: Vec<(Date, u32)>,
}

/// The mathematical image of a [`Group`].
pub struct GroupV {
    pub name: Seq<char>,
    pub items: Seq<(Date, u32)>,
}

impl View for Group {
    type V = GroupV;

    open spec fn view(&self) -> GroupV {
        GroupV { name: self.name@, items: self.items@ }
    }
}

/// The views of a sequence of groups.
pub open spec fn index_views(gs: Seq<Group>) -> Seq<GroupV> {
    gs.map_values(|g: Group| g@)
}

/// Position of the group with the given name: the first one, if any.
pub open spec fn spec_group_pos(idx: Seq<GroupV>, name: Seq<char>) -> Option<int>
    decreases idx.len(),
{
    if idx.len() == 0 {
        None
    } else if idx[0].name == name {
        Some(0)
    } else {
        match spec_group_pos(idx.drop_first(), name) {
            Some(p) => Some(p + 1),
            None => None,
        }
    }
}

pub proof fn lemma_group_pos_props(idx: Seq<GroupV>, name: Seq<char>)
    ensures
        match spec_group_pos(idx, name) {
            Some(p) => 0 <= p < idx.len() && idx[p].name == name && forall|q: int|
                0 <= q < p ==> (#[trigger] idx[q]).name != name,
            None => forall|q: int| 0 <= q < idx.len() ==> (#[trigger] idx[q]).name != name,
        },
    decreases idx.len(),
{
    if idx.len() > 0 && idx[0].name != name {
        let d = idx.drop_first();
        lemma_group_pos_props(d, name);
        assert(forall|q: int| 0 <= q < d.len() ==> #[trigger] d[q] == idx[q + 1]);
        match spec_group_pos(d, name) {
            Some(p) => {
                assert(idx[p + 1].name == name);
                assert forall|q: int| 0 <= q < p + 1 implies (#[trigger] idx[q]).name
                    != name by {
                    if q > 0 {
                        assert(d[q - 1].name != name);
                    }
                }
            },
            None => {
                assert forall|q: int| 0 <= q < idx.len() implies (#[trigger] idx[q]).name
                    != name by {
                    if q > 0 {
                        assert(d[q - 1].name != name);
                    }
                }
            },
        }
    }
}

proof fn lemma_group_pos_is(idx: Seq<GroupV>, name: Seq<char>, p: int)
    requires
        0 <= p < idx.len(),
        idx[p].name == name,
        forall|q: int| 0 <= q < p ==> (#[trigger] idx[q]).name != name,
    ensures
        spec_group_pos(idx, name) == Some(p),
{
    lemma_group_pos_props(idx, name);
    match spec_group_pos(idx, name) {
        Some(k) => {
            if k < p {
                assert(idx[k].name != name);
            }
            if k > p {
                assert(idx[p].name != name);
            }
        },
        None => {
            assert(idx[p].name != name);
        },
    }
}

proof fn lemma_group_pos_none(idx: Seq<GroupV>, name: Seq<char>)
    requires
        forall|q: int| 0 <= q < idx.len() ==> (#[trigger] idx[q]).name != name,
    ensures
        spec_group_pos(idx, name) == None::<int>,
{
    lemma_group_pos_props(idx, name);
    if spec_group_pos(idx, name) is Some {
        let k = spec_group_pos(idx, name)->Some_0;
        assert(idx[k].name != name);
    }
}

/// One entry folded into the index: appended to its habit's group, or
/// opening a new group at the end.
pub open spec fn spec_add_entry(idx: Seq<GroupV>, e: EntryV) -> Seq<GroupV> {
    match spec_group_pos(idx, e.habit) {
        Some(p) => idx.update(
            p,
            GroupV { name: idx[p].name, items: idx[p].items.push((e.date, e.value)) },
        ),
        None => idx.push(GroupV { name: e.habit, items: seq![(e.date, e.value)] }),
    }
}

/// The index that a sequence of entries induces.
pub open spec fn spec_index(es: Seq<EntryV>) -> Seq<GroupV>
    decreases es.len(),
{
    if es.len() == 0 {
        Seq::<GroupV>::empty()
    } else {
        spec_add_entry(spec_index(es.drop_last()), es.last())
    }
}

/// The index is a function of the entry sequence alone: recomputing it
/// from the same entries gives the identical mapping.
pub proof fn lemma_index_deterministic(es1: Seq<EntryV>, es2: Seq<EntryV>)
    requires
        es1 == es2,
    ensures
        spec_index(es1) == spec_index(es2),
{
}

/// Finds the group of the given habit name.
pub fn group_pos(idx: &Vec<Group>, name: &String) -> (r: Option<usize>)
    ensures
        match r {
            Some(p) => spec_group_pos(index_views(idx@), name@) == Some(p as int),
            None => spec_group_pos(index_views(idx@), name@) == None::<int>,
        },
{
    let ghost iv = index_views(idx@);
    let mut g: usize = 0;
    while g < idx.len()
        invariant
            iv == index_views(idx@),
            iv.len() == idx@.len(),
            g <= idx@.len(),
            forall|q: int| 0 <= q < g ==> (#[trigger] iv[q]).name != name@,
        decreases idx@.len() - g,
    {
        if idx[g].name == *name {
            proof {
                lemma_group_pos_is(iv, name@, g as int);
            }
            return Some(g);
        }
        g = g + 1;
    }
    proof {
        lemma_group_pos_none(iv, name@);
    }
    None
}

/// Builds the index of an entry sequence.
pub fn build_index(entries: &Vec<Entry>) -> (r: Vec<Group>)
    ensures
        index_views(r@) == spec_index(entry_views(entries@)),
{
    let mut out: Vec<Group> = Vec::new();
    let mut k: usize = 0;
    proof {
        assert(entry_views(entries@).subrange(0, 0) =~= Seq::<EntryV>::empty());
        assert(index_views(out@) =~~= spec_index(entry_views(entries@).subrange(0, 0)));
    }
    while k < entries.len()
        invariant
            k <= entries@.len(),
            index_views(out@) == spec_index(entry_views(entries@).subrange(0, k as int)),
        decreases entries@.len() - k,
    {
        let ghost evs = entry_views(entries@);
        let ghost pre = evs.subrange(0, k as int);
        let ghost cur = evs.subrange(0, k + 1);
        proof {
            assert(cur.drop_last() =~= pre);
            assert(cur.last() == entries@[k as int]@);
        }
        let e = &entries[k];
        proof {
            lemma_group_pos_props(index_views(out@), e.habit@);
        }
        match group_pos(&out, &e.habit) {
            Some(p) => {
                let ghost oldv = index_views(out@);
                let grp = &mut out[p];
                grp.items.push((e.date, e.value));
                proof {
                    assert(index_views(out@) =~~= spec_add_entry(oldv, entries@[k as int]@));
                }
            },
            None => {
                let mut items: Vec<(Date, u32)> = Vec::new();
                items.push((e.date, e.value));
                let ghost oldv = index_views(out@);
                out.push(Group { name: e.habit.clone(), items });
                proof {
                    assert(index_views(out@) =~~= spec_add_entry(oldv, entries@[k as int]@));
                }
            },
        }
        k = k + 1;
    }
    proof {
        assert(entry_views(entries@).subrange(0, entries@.len() as int) =~= entry_views(
            entries@,
        ));
    }
    out
}

} // verus!
