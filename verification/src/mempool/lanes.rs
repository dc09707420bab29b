//! The lanes of data proposals that a node keeps, one per validator, held
//! in memory: each lane lists its proposals oldest first, each on top of
//! the one before it, with their cumulated sizes, and has a tip.

use crate::model::mempool::DataProposalHash;
use crate::str_map::StrMap;
use vstd::prelude::*;

verus! {

/// Whether a data proposal can be put on top of a lane.
#[derive(Debug, Clone, Copy, PartialEq, Eq, Structural)]
pub enum CanBePutOnTop {
    /// Its parent is the tip of the lane.
    Yes,
    /// Its parent is not in the lane.
    No,
    /// Its parent is in the lane but is not the tip: it forks the lane.
    Fork,
}

/// One lane: its proposals, oldest first, with their cumulated sizes, and
/// its tip.
pub struct Lane {
    pub entries: Vec<(DataProposalHash, u64)>,
    pub tip: Option<(DataProposalHash, u64)>,
}

/// A lane, as plain values.
pub ghost struct LaneV {
    pub entries: Seq<(Seq<char>, u64)>,
    pub tip: Option<(Seq<char>, u64)>,
}

/// The proposals of a lane, as plain values.
pub open spec fn entries_view(v: Seq<(DataProposalHash, u64)>) -> Seq<(Seq<char>, u64)> {
    v.map_values(|e: (DataProposalHash, u64)| (e.0@, e.1))
}

impl View for Lane {
    type V = LaneV;

    open spec fn view(&self) -> LaneV {
        LaneV {
            entries: entries_view(self.entries@),
            tip: match self.tip {
                Some((h, s)) => Some((h@, s)),
                None => None,
            },
        }
    }
}

/// The hash of the tip of a lane, if it has one.
pub open spec fn tip_hash(l: LaneV) -> Option<Seq<char>> {
    match l.tip {
        Some((h, _)) => Some(h),
        None => None,
    }
}

/// The tip of the lane is its last proposal.
pub open spec fn tip_is_last(l: LaneV) -> bool {
    l.entries.len() > 0 && tip_hash(l) == Some(l.entries.last().0)
}

/// The proposals left once proposals are taken off the top of a lane
/// whose tip is its last proposal, until the one of the previous cut comes
/// off (it is put back) or none is left. A lane whose tip is not its last
/// proposal loses nothing.
pub open spec fn spec_pop_until(entries: Seq<(Seq<char>, u64)>, tip_ok: bool, previous: Option<Seq<char>>) -> Seq<(Seq<char>, u64)>
    decreases entries.len(),
{
    if !tip_ok || entries.len() == 0 {
        entries
    } else if previous == Some(entries.last().0) {
        entries
    } else {
        spec_pop_until(entries.drop_last(), true, previous)
    }
}

proof fn lemma_pop_until(entries: Seq<(Seq<char>, u64)>, tip_ok: bool, previous: Option<Seq<char>>)
    ensures
        ({
            let r = spec_pop_until(entries, tip_ok, previous);
            &&& r.len() <= entries.len()
            &&& r == entries.take(r.len() as int)
            &&& forall|j: int| r.len() <= j < entries.len() ==> previous != Some(#[trigger] entries[j].0)
            &&& tip_ok && r.len() > 0 ==> previous == Some(r.last().0)
        }),
    decreases entries.len(),
{
    if !tip_ok || entries.len() == 0 || previous == Some(entries.last().0) {
        assert(entries.take(entries.len() as int) =~= entries);
    } else {
        let rest = entries.drop_last();
        lemma_pop_until(rest, true, previous);
        let r = spec_pop_until(rest, true, previous);
        assert(r =~= entries.take(r.len() as int));
        assert forall|j: int| r.len() <= j < entries.len() implies previous != Some(#[trigger] entries[j].0) by {
            if j < rest.len() {
                assert(entries[j] == rest[j]);
            }
        }
    }
}

/// The cleanup of a lane after a cut: its tip becomes the new cut's
/// proposal; the proposals it keeps are the first ones it had; and when it
/// was cleaned (its tip, its last proposal, was neither the previous cut's
/// nor the new cut's), none of those removed is the previous cut's
/// proposal, and the last one kept, if any, is.
pub proof fn lemma_clean_removes_what_follows_the_previous_cut(l: LaneV, previous: Option<Seq<char>>, new: Seq<char>, size: u64)
    ensures
        ({
            let r = spec_clean_and_update(l, previous, new, size);
            &&& r.tip == Some((new, size))
            &&& r.entries.len() <= l.entries.len()
            &&& r.entries == l.entries.take(r.entries.len() as int)
            &&& tip_hash(l) != previous && tip_hash(l) != Some(new) && tip_is_last(l) ==> {
                &&& forall|j: int| r.entries.len() <= j < l.entries.len() ==> previous != Some(#[trigger] l.entries[j].0)
                &&& r.entries.len() > 0 ==> previous == Some(r.entries.last().0)
            }
        }),
{
    lemma_pop_until(l.entries, tip_is_last(l), previous);
    assert(l.entries.take(l.entries.len() as int) =~= l.entries);
}

/// The lane once cleaned after a cut: when its tip is neither the
/// proposal of the previous cut nor that of the new cut, the proposals
/// after the previous cut are removed (`spec_pop_until`); then its tip is
/// the new cut's proposal, with its size.
pub open spec fn spec_clean_and_update(l: LaneV, previous: Option<Seq<char>>, new: Seq<char>, size: u64) -> LaneV {
    LaneV {
        entries: if tip_hash(l) != previous && tip_hash(l) != Some(new) {
            spec_pop_until(l.entries, tip_is_last(l), previous)
        } else {
            l.entries
        },
        tip: Some((new, size)),
    }
}

impl Lane {
    /// An empty lane with no tip.
    pub fn new() -> (res: Lane)
        ensures
            res@ == (LaneV { entries: Seq::empty(), tip: None }),
    {
        let res = Lane { entries: Vec::new(), tip: None };
        assert(res@.entries =~= Seq::<(Seq<char>, u64)>::empty());
        res
    }

    /// The hash of the tip, if any.
    pub fn get_lane_hash_tip(&self) -> (res: Option<&DataProposalHash>)
        ensures
            match res {
                Some(h) => tip_hash(self@) == Some(h@),
                None => tip_hash(self@) is None,
            },
    {
        match &self.tip {
            Some((h, _)) => Some(h),
            None => None,
        }
    }

    /// Whether the lane holds the proposal `h`.
    pub fn contains(&self, h: &DataProposalHash) -> (res: bool)
        ensures
            res == (exists|i: int| 0 <= i < self@.entries.len() && #[trigger] self@.entries[i].0 == h@),
    {
        let mut i: usize = 0;
        while i < self.entries.len()
            invariant
                i <= self.entries@.len(),
                forall|j: int| 0 <= j < i ==> self@.entries[j].0 != h@,
            decreases self.entries@.len() - i,
        {
            assert(self@.entries[i as int] == (self.entries@[i as int].0@, self.entries@[i as int].1));
            if self.entries[i].0.0 == h.0 {
                assert(self@.entries[i as int].0 == h@);
                return true;
            }
            i = i + 1;
        }
        false
    }

    /// Sets the tip and gives back the previous one.
    pub fn update_lane_tip(&mut self, h: DataProposalHash, size: u64) -> (res: Option<(DataProposalHash, u64)>)
        ensures
            final(self)@ == (LaneV { tip: Some((h@, size)), ..old(self)@ }),
            match res {
                Some((p, s)) => old(self)@.tip == Some((p@, s)),
                None => old(self)@.tip is None,
            },
    {
        let prev = self.tip.take();
        self.tip = Some((h, size));
        prev
    }

    /// Puts a proposal on top of the lane, leaving the tip as it is.
    pub fn put_no_verification(&mut self, h: DataProposalHash, size: u64)
        ensures
            final(self)@ == (LaneV { entries: old(self)@.entries.push((h@, size)), ..old(self)@ }),
    {
        let ghost e0 = self@.entries;
        let ghost hv = h@;
        self.entries.push((h, size));
        proof {
            assert(entries_view(self.entries@) =~= e0.push((hv, size)));
        }
    }

    /// Takes the tip's proposal off the lane when it is the last one; the
    /// tip then moves to the proposal below it, if any.
    pub fn pop(&mut self) -> (res: Option<(DataProposalHash, u64)>)
        ensures
            tip_is_last(old(self)@) ==> {
                let e = old(self)@.entries;
                let rest = e.drop_last();
                &&& res matches Some((h, s)) && (h@, s) == e.last()
                &&& final(self)@ == (LaneV {
                    entries: rest,
                    tip: if rest.len() > 0 {
                        Some(rest.last())
                    } else {
                        None
                    },
                })
            },
            !tip_is_last(old(self)@) ==> res is None && final(self)@ == old(self)@,
    {
        let n = self.entries.len();
        if n == 0 {
            return None;
        }
        let is_tip = match &self.tip {
            Some((t, _)) => t.0 == self.entries[n - 1].0.0,
            None => false,
        };
        assert(self@.entries.last() == (self.entries@[n - 1].0@, self.entries@[n - 1].1));
        if !is_tip {
            return None;
        }
        let ghost e0 = self@.entries;
        let last = self.entries.pop().unwrap();
        proof {
            assert(entries_view(self.entries@) =~= e0.drop_last());
        }
        let m = self.entries.len();
        if m > 0 {
            assert(self@.entries.last() == (self.entries@[m - 1].0@, self.entries@[m - 1].1));
            self.tip = Some((self.entries[m - 1].0.copy(), self.entries[m - 1].1));
        } else {
            self.tip = None;
        }
        Some(last)
    }

    /// Cleans the lane after a cut, as `spec_clean_and_update` states: when
    /// the tip is neither the proposal of the previous cut nor that of the
    /// new cut, proposals come off the top until the previous cut's
    /// proposal does, which is put back; then the tip is set to the new
    /// cut's proposal.
    pub fn clean_and_update(&mut self, previous: Option<&DataProposalHash>, new: &DataProposalHash, size: u64)
        ensures
            final(self)@ == spec_clean_and_update(
                old(self)@,
                match previous {
                    Some(p) => Some(p@),
                    None => None,
                },
                new@,
                size,
            ),
    {
        let ghost prev = match previous {
            Some(p) => Some(p@),
            None => None::<Seq<char>>,
        };
        let tip = match self.get_lane_hash_tip() {
            Some(t) => Some(t.copy()),
            None => None,
        };
        let is_prev = match (&tip, previous) {
            (Some(t), Some(p)) => t.0 == p.0,
            (None, None) => true,
            _ => false,
        };
        let is_new = match &tip {
            Some(t) => t.0 == new.0,
            None => false,
        };
        if !is_prev && !is_new {
            let ghost goal = spec_pop_until(self@.entries, tip_is_last(self@), prev);
            loop
                invariant_except_break
                    spec_pop_until(self@.entries, tip_is_last(self@), prev) == goal,
                invariant
                    prev == match previous {
                        Some(p) => Some(p@),
                        None => None::<Seq<char>>,
                    },
                ensures
                    self@.entries == goal,
                decreases self@.entries.len(),
            {
                let ghost before = self@;
                match self.pop() {
                    Some((h, s)) => {
                        let again = match previous {
                            Some(p) => h.0 == p.0,
                            None => false,
                        };
                        proof {
                            assert(tip_is_last(before));
                            assert((h@, s) == before.entries.last());
                            assert(again ==> prev == Some(h@));
                            assert(!again ==> prev != Some(h@));
                        }
                        if again {
                            assert(goal == before.entries);
                            self.put_no_verification(h, s);
                            proof {
                                assert(before.entries.drop_last().push(before.entries.last()) =~= before.entries);
                            }
                            break;
                        }
                        proof {
                            assert(goal == spec_pop_until(before.entries.drop_last(), true, prev));
                            assert(self@.entries == before.entries.drop_last());
                            if self@.entries.len() > 0 {
                                assert(tip_is_last(self@));
                            } else {
                                assert(spec_pop_until(self@.entries, true, prev) == self@.entries);
                                assert(spec_pop_until(self@.entries, tip_is_last(self@), prev) == self@.entries);
                            }
                        }
                    },
                    None => {
                        break;
                    },
                }
            }
        }
        let _ = self.update_lane_tip(new.copy(), size);
    }

    /// Whether a proposal whose parent is `parent` can be put on top.
    pub fn can_be_put_on_top(&self, parent: Option<&DataProposalHash>) -> (res: CanBePutOnTop)
        ensures
            res == (if match parent {
                Some(p) => tip_hash(self@) == Some(p@),
                None => tip_hash(self@) is None,
            } {
                CanBePutOnTop::Yes
            } else if parent matches Some(p) && !(exists|i: int| 0 <= i < self@.entries.len() && #[trigger] self@.entries[i].0 == p@) {
                CanBePutOnTop::No
            } else {
                CanBePutOnTop::Fork
            }),
    {
        let on_tip = match (self.get_lane_hash_tip(), parent) {
            (Some(t), Some(p)) => t.0 == p.0,
            (None, None) => true,
            _ => false,
        };
        if on_tip {
            return CanBePutOnTop::Yes;
        }
        if let Some(p) = parent {
            if !self.contains(p) {
                return CanBePutOnTop::No;
            }
        }
        CanBePutOnTop::Fork
    }
}

/// The lanes of all validators, by lane id.
pub struct LanesStorage {
    pub lanes: StrMap<Lane>,
}

/// The lane `id` of `m`, empty when there is none.
pub open spec fn lane_or_empty(m: Map<Seq<char>, LaneV>, id: Seq<char>) -> LaneV {
    if m.contains_key(id) {
        m[id]
    } else {
        LaneV { entries: Seq::empty(), tip: None }
    }
}

impl LanesStorage {
    /// The lanes, as plain values.
    pub open spec fn view(&self) -> Map<Seq<char>, LaneV> {
        self.lanes.view().map_values(|l: Lane| l@)
    }

    /// No lane yet.
    pub fn new() -> (res: LanesStorage)
        ensures
            res.lanes.wf(),
            res.view() == Map::<Seq<char>, LaneV>::empty(),
    {
        let res = LanesStorage { lanes: StrMap::new() };
        assert(res.view() =~= Map::<Seq<char>, LaneV>::empty());
        res
    }

    /// Cleans the lane `lane_id` after a cut (`spec_clean_and_update`);
    /// the other lanes are left as they are. In memory nothing can fail.
    pub fn clean_and_update_lane(
        &mut self,
        lane_id: &String,
        previous: Option<&DataProposalHash>,
        new: &DataProposalHash,
        size: u64,
    )
        requires
            old(self).lanes.wf(),
        ensures
            final(self).lanes.wf(),
            final(self).view() == old(self).view().insert(
                lane_id@,
                spec_clean_and_update(
                    lane_or_empty(old(self).view(), lane_id@),
                    match previous {
                        Some(p) => Some(p@),
                        None => None,
                    },
                    new@,
                    size,
                ),
            ),
    {
        let ghost v0 = self.view();
        let mut lane = match self.lanes.remove(lane_id) {
            Some(l) => l,
            None => Lane::new(),
        };
        let ghost mid = self.lanes.view();
        lane.clean_and_update(previous, new, size);
        let ghost lv = lane@;
        self.lanes.insert(lane_id.clone(), lane);
        proof {
            assert(self.view() =~= v0.insert(lane_id@, lv));
        }
    }
}

} // verus!
