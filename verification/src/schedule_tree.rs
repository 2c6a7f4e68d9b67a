//! The interval placement store: an ordered collection of non-overlapping
//! time intervals with bounded, direction-biased gap search.
use vstd::prelude::*;

use crate::TIME_LIMIT;

verus! {

/// One placed task: the half-open interval `[start, end)` and the index of
/// the task it holds (a handle into the caller's task list).
#[derive(Clone, Copy, Debug, PartialEq, Eq, Structural)]
pub struct Entry {
    pub start: i64,
    pub end: i64,
    pub idx: usize,
}

/// An entry is a well-formed interval inside the engine's time universe.
pub open spec fn entry_ok(e: Entry) -> bool {
    &&& -TIME_LIMIT <= e.start
    &&& e.start <= e.end
    &&& e.end <= TIME_LIMIT
}

/// Store invariant: well-formed entries, ascending and pairwise disjoint by
/// time, and no task handle appears twice.
pub open spec fn wf(es: Seq<Entry>) -> bool {
    &&& forall|i: int| 0 <= i < es.len() ==> entry_ok(#[trigger] es[i])
    &&& forall|i: int, j: int| #![trigger es[i], es[j]]
        0 <= i < j < es.len() ==> es[i].end <= es[j].start
    &&& forall|i: int, j: int| #![trigger es[i].idx, es[j].idx]
        0 <= i < j < es.len() ==> es[i].idx != es[j].idx
}

/// Some entry holds the task handle `idx`.
pub open spec fn contains_idx(es: Seq<Entry>, idx: usize) -> bool {
    exists|i: int| 0 <= i < es.len() && #[trigger] es[i].idx == idx
}

/// The interval `[s, s + d)` intersects no entry of `es`.
pub open spec fn no_overlap(es: Seq<Entry>, s: int, d: int) -> bool {
    forall|i: int| 0 <= i < es.len() ==> (#[trigger] es[i]).end <= s || s + d <= es[i].start
}

/// The lower edge a gap search respects: an explicit bound, or the floor of
/// the engine's time universe when the caller gives none.
pub open spec fn eff_lb(lb: Option<i64>) -> int {
    match lb {
        Some(l) => l as int,
        None => -TIME_LIMIT as int,
    }
}

/// The upper edge a gap search respects: an explicit bound, or the ceiling of
/// the engine's time universe when the caller gives none.
pub open spec fn eff_ub(ub: Option<i64>) -> int {
    match ub {
        Some(u) => u as int,
        None => TIME_LIMIT as int,
    }
}

/// A task of duration `d` could start at `s` so that it ends at or before
/// `deadline`, starts at or after the lower bound, and overlaps nothing.
pub open spec fn can_place_before(
    es: Seq<Entry>,
    s: int,
    d: int,
    deadline: int,
    lb: Option<i64>,
) -> bool {
    &&& eff_lb(lb) <= s
    &&& s + d <= deadline
    &&& no_overlap(es, s, d)
}

/// A task of duration `d` could start at `s` at or after `lo`, end at or
/// before the upper bound, and overlap nothing.
pub open spec fn can_place_after(es: Seq<Entry>, s: int, d: int, lo: int, ub: Option<i64>) -> bool {
    &&& lo <= s
    &&& s + d <= eff_ub(ub)
    &&& no_overlap(es, s, d)
}

/// The interval `[s, s + d)` lies in gap number `g` of `es`: after entry
/// `g - 1` (if any) and before entry `g` (if any).
pub open spec fn fits_gap(es: Seq<Entry>, s: int, d: int, g: int) -> bool {
    &&& 0 <= g <= es.len()
    &&& g == 0 || es[g - 1].end <= s
    &&& g == es.len() || s + d <= es[g].start
}

/// Any non-overlapping interval lies in one of the store's gaps.
proof fn lemma_gap_exists(es: Seq<Entry>, s: int, d: int)
    requires
        forall|i: int, j: int| #![trigger es[i], es[j]]
            0 <= i < j < es.len() ==> es[i].end <= es[j].start,
        no_overlap(es, s, d),
        d >= 0,
    ensures
        exists|g: int| #[trigger] fits_gap(es, s, d, g),
    decreases es.len(),
{
    if es.len() == 0 {
        assert(fits_gap(es, s, d, 0));
    } else if s + d <= es[0].start {
        assert(fits_gap(es, s, d, 0));
    } else {
        assert(es[0].end <= s);
        let tail = es.subrange(1, es.len() as int);
        assert forall|i: int| 0 <= i < tail.len() implies (#[trigger] tail[i]).end <= s || s + d
            <= tail[i].start by {
            assert(tail[i] == es[i + 1]);
        }
        lemma_gap_exists(tail, s, d);
        let g0 = choose|g0: int| #[trigger] fits_gap(tail, s, d, g0);
        assert(fits_gap(es, s, d, g0 + 1)) by {
            if g0 > 0 {
                assert(es[g0] == tail[g0 - 1]);
            }
            if g0 + 1 < es.len() {
                assert(es[g0 + 1] == tail[g0]);
            }
        }
    }
}

/// Removing an entry from a well-formed store frees exactly its interval:
/// nothing left behind overlaps it.
pub proof fn lemma_removed_slot_free(es: Seq<Entry>, k: int)
    requires
        wf(es),
        0 <= k < es.len(),
    ensures
        no_overlap(es.remove(k), es[k].start as int, es[k].end - es[k].start),
{
    let rest = es.remove(k);
    assert forall|i: int| 0 <= i < rest.len() implies (#[trigger] rest[i]).end <= es[k].start
        as int || es[k].start + (es[k].end - es[k].start) <= rest[i].start by {
        if i < k {
            assert(rest[i] == es[i]);
        } else {
            assert(rest[i] == es[i + 1]);
        }
    }
}

/// The ordered interval placement store. Entries are kept ascending by start
/// time; gap search, insertion, removal and lookup all preserve [`wf`].
///
/// Lookup by task handle scans the ordered vector. The store holds one
/// person's tasks — a handful of entries — so no handle index is kept
/// alongside the interval order; every operation's result is fully specified
/// either way.
pub struct ScheduleTree {
    entries: Vec<Entry>,
}

impl View for ScheduleTree {
    type V = Seq<Entry>;

    closed spec fn view(&self) -> Seq<Entry> {
        self.entries@
    }
}

impl ScheduleTree {
    /// A store with no entries.
    pub fn new() -> (t: Self)
        ensures
            t@ == Seq::<Entry>::empty(),
            wf(t@),
    {
        let t = ScheduleTree { entries: Vec::new() };
        proof {
            assert(t@ =~= Seq::<Entry>::empty());
        }
        t
    }

    /// Whether no task is scheduled.
    pub fn is_empty(&self) -> (r: bool)
        ensures
            r == (self@.len() == 0),
    {
        self.entries.len() == 0
    }

    /// How many tasks are scheduled.
    pub fn len(&self) -> (n: usize)
        ensures
            n == self@.len(),
    {
        self.entries.len()
    }

    /// The entry at position `k` in ascending start-time order.
    pub fn entry_at(&self, k: usize) -> (e: Entry)
        requires
            k < self@.len(),
        ensures
            e == self@[k as int],
    {
        self.entries[k]
    }

    /// A copy of the entries in ascending start-time order.
    #[verifier::loop_isolation(false)]
    pub fn entries_vec(&self) -> (r: Vec<Entry>)
        ensures
            r@ == self@,
    {
        let n = self.entries.len();
        let mut r: Vec<Entry> = Vec::new();
        let mut k: usize = 0;
        while k < n
            invariant
                0 <= k <= n,
                r@.len() == k,
                forall|m: int| 0 <= m < k ==> r@[m] == self@[m],
            decreases n - k,
        {
            r.push(self.entries[k]);
            k += 1;
        }
        proof {
            assert(r@ =~= self@);
        }
        r
    }

    /// Read-only lookup: the start time of the entry holding `idx`, if any.
    pub fn when_scheduled(&self, idx: usize) -> (r: Option<i64>)
        ensures
            match r {
                Some(t) => exists|k: int|
                    0 <= k < self@.len() && (#[trigger] self@[k]).idx == idx && self@[k].start == t,
                None => !contains_idx(self@, idx),
            },
    {
        let n = self.entries.len();
        let mut k: usize = 0;
        while k < n
            invariant
                0 <= k <= n,
                n == self@.len(),
                forall|m: int| 0 <= m < k ==> (#[trigger] self@[m]).idx != idx,
            decreases n - k,
        {
            if self.entries[k].idx == idx {
                return Some(self.entries[k].start);
            }
            k += 1;
        }
        None
    }

    /// Packs a task as late as possible: finds the gap closest to `deadline`
    /// that is at least `duration` wide, ends at or before `deadline` and
    /// starts at or after the lower bound, and inserts the entry there. On
    /// success the chosen start is the latest possible one; on failure no
    /// placement at all satisfies the constraints and the store is unchanged.
    #[verifier::loop_isolation(false)]
    pub fn schedule_close_before(
        &mut self,
        deadline: i64,
        duration: i64,
        lower_bound: Option<i64>,
        idx: usize,
    ) -> (ok: bool)
        requires
            wf(old(self)@),
            !contains_idx(old(self)@, idx),
            0 <= duration <= 2 * (TIME_LIMIT as int),
            -TIME_LIMIT <= deadline <= TIME_LIMIT,
            -TIME_LIMIT <= eff_lb(lower_bound) <= TIME_LIMIT,
        ensures
            wf(final(self)@),
            ok == exists|s: int|
                #[trigger] can_place_before(old(self)@, s, duration as int, deadline as int, lower_bound),
            !ok ==> final(self)@ == old(self)@,
            ok ==> exists|g: int|
                {
                    &&& 0 <= g <= old(self)@.len()
                    &&& final(self)@ == old(self)@.insert(g, (#[trigger] final(self)@[g]))
                    &&& final(self)@[g].idx == idx
                    &&& final(self)@[g].end - final(self)@[g].start == duration
                    &&& can_place_before(
                        old(self)@,
                        final(self)@[g].start as int,
                        duration as int,
                        deadline as int,
                        lower_bound,
                    )
                    &&& forall|s: int|
                        can_place_before(
                            old(self)@,
                            s,
                            duration as int,
                            deadline as int,
                            lower_bound,
                        ) ==> s <= final(self)@[g].start
                },
    {
        let ghost es = old(self)@;
        let ghost d = duration as int;
        let lb: i64 = match lower_bound {
            Some(l) => l,
            None => -TIME_LIMIT,
        };
        let n = self.entries.len();
        proof {
            assert forall|s: int|
                #[trigger] can_place_before(es, s, d, deadline as int, lower_bound)
                    implies exists|g: int| 0 <= g <= n && #[trigger] fits_gap(es, s, d, g) by {
                lemma_gap_exists(es, s, d);
                let g = choose|g: int| #[trigger] fits_gap(es, s, d, g);
                assert(0 <= g <= n && fits_gap(es, s, d, g));
            }
        }
        let mut i: usize = n;
        loop
            invariant
                0 <= i <= n,
                self@ == es,
                forall|s: int|
                    #[trigger] can_place_before(es, s, d, deadline as int, lower_bound)
                        ==> exists|g: int| 0 <= g <= i && #[trigger] fits_gap(es, s, d, g),
            decreases i,
        {
            // Examine gap i: between entry i - 1 (if any) and entry i (if any).
            let end_cap: i64 = if i < n {
                let st = self.entries[i].start;
                if deadline < st {
                    deadline
                } else {
                    st
                }
            } else {
                deadline
            };
            let s = end_cap - duration;
            let low_ok: bool = if i > 0 {
                self.entries[i - 1].end <= s
            } else {
                true
            };
            if s >= lb && low_ok {
                let e = Entry { start: s, end: end_cap, idx };
                self.entries.insert(i, e);
                proof {
                    let g = i as int;
                    let new = es.insert(g, e);
                    assert(final(self)@ == new);
                    assert(can_place_before(es, s as int, d, deadline as int, lower_bound)) by {
                        assert forall|m: int| 0 <= m < es.len() implies (#[trigger] es[m]).end
                            <= s as int || s + d <= es[m].start by {
                            if m < g {
                                assert(es[m].end <= es[g - 1].end);
                            }
                        }
                    }
                    // Optimality: every legal start lies at or before s.
                    assert forall|s1: int|
                        can_place_before(es, s1, d, deadline as int, lower_bound) implies s1
                        <= s as int by {
                        let g1 = choose|g1: int| 0 <= g1 <= i && #[trigger] fits_gap(es, s1, d, g1);
                        if g1 == g {
                            assert(s1 + d <= end_cap as int);
                        } else {
                            assert(g1 < g);
                            assert(s1 + d <= es[g1].start);
                            assert(es[g1].start <= es[g - 1].end) by {
                                if g1 < g - 1 {
                                    assert(es[g1].end <= es[g - 1].start);
                                }
                            }
                        }
                    }
                    // The insertion keeps the store well formed.
                    assert forall|m: int| 0 <= m < new.len() implies entry_ok(#[trigger] new[m]) by {
                        if m < g {
                            assert(new[m] == es[m]);
                        } else if m > g {
                            assert(new[m] == es[m - 1]);
                        }
                    }
                    assert forall|m1: int, m2: int| #![trigger new[m1], new[m2]]
                        0 <= m1 < m2 < new.len() implies new[m1].end <= new[m2].start by {
                        if m1 < g {
                            assert(new[m1] == es[m1]);
                        } else if m1 > g {
                            assert(new[m1] == es[m1 - 1]);
                        }
                        if m2 < g {
                            assert(new[m2] == es[m2]);
                        } else if m2 > g {
                            assert(new[m2] == es[m2 - 1]);
                        }
                        if m1 < g && g < m2 {
                            assert(es[m1].end <= es[g - 1].end);
                            assert(es[g].start <= es[m2 - 1].start);
                        }
                    }
                    assert forall|m1: int, m2: int| #![trigger new[m1].idx, new[m2].idx]
                        0 <= m1 < m2 < new.len() implies new[m1].idx != new[m2].idx by {
                        if m1 < g {
                            assert(new[m1] == es[m1]);
                        } else if m1 > g {
                            assert(new[m1] == es[m1 - 1]);
                        }
                        if m2 < g {
                            assert(new[m2] == es[m2]);
                        } else if m2 > g {
                            assert(new[m2] == es[m2 - 1]);
                        }
                    }
                    assert(new[g] == e);
                }
                return true;
            }
            proof {
                // Gap i cannot host the task: anything in it would start
                // after the latest start we just rejected.
                assert forall|s1: int|
                    can_place_before(es, s1, d, deadline as int, lower_bound) && fits_gap(
                        es,
                        s1,
                        d,
                        i as int,
                    ) implies false by {
                    assert(s1 + d <= end_cap as int);
                    assert(s1 <= s as int);
                }
            }
            if i == 0 {
                proof {
                    assert forall|s1: int|
                        !can_place_before(es, s1, d, deadline as int, lower_bound) by {
                        if can_place_before(es, s1, d, deadline as int, lower_bound) {
                            let g1 = choose|g1: int|
                                0 <= g1 <= 0 && #[trigger] fits_gap(es, s1, d, g1);
                            assert(fits_gap(es, s1, d, 0));
                        }
                    }
                }
                return false;
            }
            i -= 1;
        }
    }

    /// Packs a task as early as possible: finds the earliest gap at or after
    /// `start` that is at least `duration` wide and whose resulting end does
    /// not exceed the upper bound, and inserts the entry there. On success the
    /// chosen start is the earliest possible one; on failure no placement at
    /// all satisfies the constraints and the store is unchanged.
    #[verifier::loop_isolation(false)]
    pub fn schedule_close_after(
        &mut self,
        start: i64,
        duration: i64,
        upper_bound: Option<i64>,
        idx: usize,
    ) -> (ok: bool)
        requires
            wf(old(self)@),
            !contains_idx(old(self)@, idx),
            0 <= duration <= 2 * (TIME_LIMIT as int),
            -TIME_LIMIT <= start <= TIME_LIMIT,
            -TIME_LIMIT <= eff_ub(upper_bound) <= TIME_LIMIT,
        ensures
            wf(final(self)@),
            ok == exists|s: int|
                #[trigger] can_place_after(old(self)@, s, duration as int, start as int, upper_bound),
            !ok ==> final(self)@ == old(self)@,
            ok ==> exists|g: int|
                {
                    &&& 0 <= g <= old(self)@.len()
                    &&& final(self)@ == old(self)@.insert(g, (#[trigger] final(self)@[g]))
                    &&& final(self)@[g].idx == idx
                    &&& final(self)@[g].end - final(self)@[g].start == duration
                    &&& can_place_after(
                        old(self)@,
                        final(self)@[g].start as int,
                        duration as int,
                        start as int,
                        upper_bound,
                    )
                    &&& forall|s: int|
                        can_place_after(old(self)@, s, duration as int, start as int, upper_bound)
                            ==> final(self)@[g].start <= s
                },
    {
        let ghost es = old(self)@;
        let ghost d = duration as int;
        let ub: i64 = match upper_bound {
            Some(u) => u,
            None => TIME_LIMIT,
        };
        let n = self.entries.len();
        proof {
            assert forall|s: int|
                #[trigger] can_place_after(es, s, d, start as int, upper_bound)
                    implies exists|g: int| 0 <= g && #[trigger] fits_gap(es, s, d, g) by {
                lemma_gap_exists(es, s, d);
                let g = choose|g: int| #[trigger] fits_gap(es, s, d, g);
                assert(0 <= g && fits_gap(es, s, d, g));
            }
        }
        let mut i: usize = 0;
        loop
            invariant
                0 <= i <= n,
                self@ == es,
                forall|s: int|
                    #[trigger] can_place_after(es, s, d, start as int, upper_bound)
                        ==> exists|g: int| i <= g && #[trigger] fits_gap(es, s, d, g),
            decreases n - i,
        {
            // Examine gap i: the earliest start inside it.
            let s: i64 = if i > 0 {
                let pe = self.entries[i - 1].end;
                if pe > start {
                    pe
                } else {
                    start
                }
            } else {
                start
            };
            let fits_here: bool = if i < n {
                s + duration <= self.entries[i].start
            } else {
                true
            };
            if fits_here && s + duration <= ub {
                let e = Entry { start: s, end: s + duration, idx };
                self.entries.insert(i, e);
                proof {
                    let g = i as int;
                    let new = es.insert(g, e);
                    assert(final(self)@ == new);
                    assert(can_place_after(es, s as int, d, start as int, upper_bound)) by {
                        assert forall|m: int| 0 <= m < es.len() implies (#[trigger] es[m]).end
                            <= s as int || s + d <= es[m].start by {
                            if m < g {
                                assert(es[m].end <= es[g - 1].end);
                            } else {
                                assert(es[g].start <= es[m].start);
                            }
                        }
                    }
                    // Optimality: every legal start lies at or after s.
                    assert forall|s1: int|
                        can_place_after(es, s1, d, start as int, upper_bound) implies s as int
                        <= s1 by {
                        let g1 = choose|g1: int| g <= g1 && #[trigger] fits_gap(es, s1, d, g1);
                        if g1 == g {
                            assert(g == 0 || es[g - 1].end <= s1);
                        } else {
                            assert(g < g1);
                            assert(es[g1 - 1].end <= s1);
                            assert(es[g].start <= es[g1 - 1].start) by {
                                if g < g1 - 1 {
                                    assert(es[g].end <= es[g1 - 1].start);
                                }
                            }
                            assert(s + d <= es[g].start);
                        }
                    }
                    // The insertion keeps the store well formed.
                    assert forall|m: int| 0 <= m < new.len() implies entry_ok(#[trigger] new[m]) by {
                        if m < g {
                            assert(new[m] == es[m]);
                        } else if m > g {
                            assert(new[m] == es[m - 1]);
                        }
                    }
                    assert forall|m1: int, m2: int| #![trigger new[m1], new[m2]]
                        0 <= m1 < m2 < new.len() implies new[m1].end <= new[m2].start by {
                        if m1 < g {
                            assert(new[m1] == es[m1]);
                        } else if m1 > g {
                            assert(new[m1] == es[m1 - 1]);
                        }
                        if m2 < g {
                            assert(new[m2] == es[m2]);
                        } else if m2 > g {
                            assert(new[m2] == es[m2 - 1]);
                        }
                        if m1 < g && g < m2 {
                            assert(es[m1].end <= es[g - 1].end);
                            assert(es[g].start <= es[m2 - 1].start);
                        }
                    }
                    assert forall|m1: int, m2: int| #![trigger new[m1].idx, new[m2].idx]
                        0 <= m1 < m2 < new.len() implies new[m1].idx != new[m2].idx by {
                        if m1 < g {
                            assert(new[m1] == es[m1]);
                        } else if m1 > g {
                            assert(new[m1] == es[m1 - 1]);
                        }
                        if m2 < g {
                            assert(new[m2] == es[m2]);
                        } else if m2 > g {
                            assert(new[m2] == es[m2 - 1]);
                        }
                    }
                    assert(new[g] == e);
                }
                return true;
            }
            proof {
                // Gap i cannot host the task: anything in it would start at
                // or after the earliest start we just rejected.
                assert forall|s1: int|
                    can_place_after(es, s1, d, start as int, upper_bound) && fits_gap(
                        es,
                        s1,
                        d,
                        i as int,
                    ) implies false by {
                    assert(s as int <= s1);
                }
            }
            if i == n {
                proof {
                    assert forall|s1: int|
                        !can_place_after(es, s1, d, start as int, upper_bound) by {
                        if can_place_after(es, s1, d, start as int, upper_bound) {
                            let g1 = choose|g1: int|
                                n <= g1 && #[trigger] fits_gap(es, s1, d, g1);
                            assert(fits_gap(es, s1, d, n as int));
                        }
                    }
                }
                return false;
            }
            i += 1;
        }
    }

    /// Removes and returns the entry holding `idx`; the rest of the store is
    /// untouched. Returns `None`, changing nothing, when `idx` is absent.
    #[verifier::loop_isolation(false)]
    pub fn unschedule(&mut self, idx: usize) -> (r: Option<Entry>)
        requires
            wf(old(self)@),
        ensures
            wf(final(self)@),
            match r {
                Some(e) => exists|k: int|
                    0 <= k < old(self)@.len() && (#[trigger] old(self)@[k]) == e && e.idx == idx
                        && final(self)@ == old(self)@.remove(k),
                None => final(self)@ == old(self)@ && !contains_idx(old(self)@, idx),
            },
    {
        let n = self.entries.len();
        let mut k: usize = 0;
        while k < n
            invariant
                0 <= k <= n,
                n == self@.len(),
                self@ == old(self)@,
                forall|m: int| 0 <= m < k ==> (#[trigger] self@[m]).idx != idx,
            decreases n - k,
        {
            if self.entries[k].idx == idx {
                let e = self.entries[k];
                self.entries.remove(k);
                proof {
                    let es = old(self)@;
                    let rest = es.remove(k as int);
                    assert forall|i: int| 0 <= i < rest.len() implies entry_ok(#[trigger] rest[i]) by {
                        if i < k {
                            assert(rest[i] == es[i]);
                        } else {
                            assert(rest[i] == es[i + 1]);
                        }
                    }
                    assert forall|i: int, j: int| #![trigger rest[i], rest[j]]
                        0 <= i < j < rest.len() implies rest[i].end <= rest[j].start && rest[i].idx
                        != rest[j].idx by {
                        let i0 = if i < k { i } else { i + 1 };
                        let j0 = if j < k { j } else { j + 1 };
                        assert(rest[i] == es[i0]);
                        assert(rest[j] == es[j0]);
                    }
                }
                return Some(e);
            }
            k += 1;
        }
        None
    }
}

} // verus!
