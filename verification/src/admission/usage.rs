//! Per-worker token accounting: how much of each worker's capacity the
//! programs occupy, and a small table keyed by worker.

use vstd::prelude::*;
use super::types::WorkerWithDpRank;
use super::program::{Program, footprint_of, is_suspended, is_running};

verus! {

/// `n` clamped to the `usize` range, as repeated saturating additions give.
pub open spec fn saturate(n: nat) -> usize {
    if n >= usize::MAX {
        usize::MAX
    } else {
        n as usize
    }
}

/// `a - b`, or 0 when `b > a`.
pub open spec fn sat_sub(a: usize, b: usize) -> usize {
    if b > a {
        0
    } else {
        (a - b) as usize
    }
}

/// What program `p` contributes to worker `w`: its footprint when it is not
/// paused and is placed on `w` (and, for `running_only`, is running a turn).
pub open spec fn contribution(p: Program, w: WorkerWithDpRank, running_only: bool) -> nat {
    if !is_suspended(p) && p.assigned_worker == Some(w) && (!running_only || is_running(p)) {
        footprint_of(p) as nat
    } else {
        0
    }
}

/// Sum of the contributions of the programs in `ps` to worker `w`.
pub open spec fn usage_sum(ps: Seq<(Seq<char>, Program)>, w: WorkerWithDpRank, running_only: bool) -> nat
    decreases ps.len(),
{
    if ps.len() == 0 {
        0
    } else {
        usage_sum(ps.drop_last(), w, running_only) + contribution(ps.last().1, w, running_only)
    }
}

/// The tokens the programs occupy on worker `w`.
pub open spec fn usage_of(ps: Seq<(Seq<char>, Program)>, w: WorkerWithDpRank, running_only: bool) -> usize {
    saturate(usage_sum(ps, w, running_only))
}

/// A value looked up in a worker table, 0 when the worker has no entry.
pub open spec fn get0(m: Map<WorkerWithDpRank, usize>, w: WorkerWithDpRank) -> usize {
    if m.contains_key(w) {
        m[w]
    } else {
        0
    }
}

pub proof fn lemma_saturate_step(a: nat, b: nat)
    ensures
        saturate(saturate(a) as nat + b) == saturate(a + b),
{
}

pub open spec fn table_distinct(s: Seq<(WorkerWithDpRank, usize)>) -> bool {
    forall|i: int, j: int| 0 <= i < s.len() && 0 <= j < s.len() && i != j ==> s[i].0 != s[j].0
}

pub open spec fn table_map(s: Seq<(WorkerWithDpRank, usize)>) -> Map<WorkerWithDpRank, usize> {
    Map::new(
        |w: WorkerWithDpRank| exists|i: int| 0 <= i < s.len() && s[i].0 == w,
        |w: WorkerWithDpRank| s[choose|i: int| 0 <= i < s.len() && s[i].0 == w].1,
    )
}

pub proof fn lemma_table_lookup(s: Seq<(WorkerWithDpRank, usize)>, i: int)
    requires
        table_distinct(s),
        0 <= i < s.len(),
    ensures
        table_map(s).contains_key(s[i].0),
        table_map(s)[s[i].0] == s[i].1,
{
    let j = choose|j: int| 0 <= j < s.len() && s[j].0 == s[i].0;
    assert(s[j].0 == s[i].0);
}

/// A map from workers to token counts.
pub struct WorkerTable {
    entries: Vec<(WorkerWithDpRank, usize)>,
}

impl View for WorkerTable {
    type V = Map<WorkerWithDpRank, usize>;

    closed spec fn view(&self) -> Map<WorkerWithDpRank, usize> {
        table_map(self.entries@)
    }
}

impl WorkerTable {
    pub closed spec fn wf(&self) -> bool {
        table_distinct(self.entries@)
    }

    pub fn new() -> (t: WorkerTable)
        ensures
            t.wf(),
            t@ == Map::<WorkerWithDpRank, usize>::empty(),
    {
        let t = WorkerTable { entries: Vec::new() };
        assert(t@ =~= Map::<WorkerWithDpRank, usize>::empty());
        t
    }

    fn position(&self, w: WorkerWithDpRank) -> (r: Option<usize>)
        requires
            self.wf(),
        ensures
            match r {
                Some(i) => i < self.entries@.len() && self.entries@[i as int].0 == w,
                None => !self@.contains_key(w),
            },
    {
        let mut i: usize = 0;
        while i < self.entries.len()
            invariant
                i <= self.entries@.len(),
                forall|j: int| 0 <= j < i ==> self.entries@[j].0 != w,
            decreases self.entries@.len() - i,
        {
            if self.entries[i].0 == w {
                return Some(i);
            }
            i = i + 1;
        }
        None
    }

    /// A table with the same entries.
    pub fn duplicate(&self) -> (r: WorkerTable)
        ensures
            r.wf() == self.wf(),
            r@ == self@,
    {
        let mut entries: Vec<(WorkerWithDpRank, usize)> = Vec::new();
        let mut i: usize = 0;
        while i < self.entries.len()
            invariant
                i <= self.entries@.len(),
                entries@ == self.entries@.take(i as int),
            decreases self.entries@.len() - i,
        {
            entries.push(self.entries[i]);
            assert(self.entries@.take(i + 1) =~= self.entries@.take(i as int).push(self.entries@[i as int]));
            i = i + 1;
        }
        assert(self.entries@.take(self.entries@.len() as int) =~= self.entries@);
        WorkerTable { entries }
    }

    /// The entry for `w`, if any.
    pub fn get(&self, w: WorkerWithDpRank) -> (r: Option<usize>)
        requires
            self.wf(),
        ensures
            r == (if self@.contains_key(w) {
                Some(self@[w])
            } else {
                None
            }),
    {
        match self.position(w) {
            Some(i) => {
                proof {
                    lemma_table_lookup(self.entries@, i as int);
                }
                Some(self.entries[i].1)
            },
            None => None,
        }
    }

    /// The entry for `w`, or 0.
    pub fn get_or_zero(&self, w: WorkerWithDpRank) -> (r: usize)
        requires
            self.wf(),
        ensures
            r == get0(self@, w),
    {
        match self.get(w) {
            Some(x) => x,
            None => 0,
        }
    }

    /// Sets the entry for `w` to `x`.
    pub fn set(&mut self, w: WorkerWithDpRank, x: usize)
        requires
            old(self).wf(),
        ensures
            final(self).wf(),
            final(self)@ == old(self)@.insert(w, x),
    {
        let ghost olds = self.entries@;
        match self.position(w) {
            Some(i) => {
                self.entries.set(i, (w, x));
                let ghost news = self.entries@;
                assert forall|v: WorkerWithDpRank| #![auto] table_map(news).contains_key(v) <==> old(self)@.insert(w, x).contains_key(v) by {
                    if exists|j: int| 0 <= j < olds.len() && olds[j].0 == v {
                        let j = choose|j: int| 0 <= j < olds.len() && olds[j].0 == v;
                        assert(news[j].0 == v);
                    }
                    if exists|j: int| 0 <= j < news.len() && news[j].0 == v {
                        let j = choose|j: int| 0 <= j < news.len() && news[j].0 == v;
                        assert(olds[j].0 == v);
                    }
                }
                assert forall|v: WorkerWithDpRank| #![auto] table_map(news).contains_key(v) implies table_map(news)[v] == old(self)@.insert(w, x)[v] by {
                    let j = choose|j: int| 0 <= j < news.len() && news[j].0 == v;
                    lemma_table_lookup(news, j);
                    if v != w {
                        assert(olds[j] == news[j]);
                        lemma_table_lookup(olds, j);
                    } else {
                        lemma_table_lookup(news, i as int);
                    }
                }
                assert(self@ =~= old(self)@.insert(w, x));
            },
            None => {
                self.entries.push((w, x));
                let ghost news = self.entries@;
                let ghost n = news.len() - 1;
                assert(news[n].0 == w);
                assert forall|v: WorkerWithDpRank| #![auto] table_map(news).contains_key(v) <==> old(self)@.insert(w, x).contains_key(v) by {
                    if exists|j: int| 0 <= j < olds.len() && olds[j].0 == v {
                        let j = choose|j: int| 0 <= j < olds.len() && olds[j].0 == v;
                        assert(news[j].0 == v);
                    }
                    if exists|j: int| 0 <= j < news.len() && news[j].0 == v {
                        let j = choose|j: int| 0 <= j < news.len() && news[j].0 == v;
                        if j < n {
                            assert(olds[j].0 == v);
                        }
                    }
                }
                assert forall|v: WorkerWithDpRank| #![auto] table_map(news).contains_key(v) implies table_map(news)[v] == old(self)@.insert(w, x)[v] by {
                    let j = choose|j: int| 0 <= j < news.len() && news[j].0 == v;
                    lemma_table_lookup(news, j);
                    if j < n {
                        assert(olds[j] == news[j]);
                        lemma_table_lookup(olds, j);
                    }
                }
                assert(self@ =~= old(self)@.insert(w, x));
            },
        }
    }

    /// Adds `x` to the entry for `w` (saturating; a missing entry counts as 0).
    pub fn add(&mut self, w: WorkerWithDpRank, x: usize)
        requires
            old(self).wf(),
        ensures
            final(self).wf(),
            final(self)@ == old(self)@.insert(w, saturate((get0(old(self)@, w) + x) as nat)),
    {
        let cur = self.get_or_zero(w);
        self.set(w, cur.saturating_add(x));
    }

    /// Subtracts `x` from the entry for `w` (saturating at 0).
    pub fn sub(&mut self, w: WorkerWithDpRank, x: usize)
        requires
            old(self).wf(),
        ensures
            final(self).wf(),
            final(self)@ == old(self)@.insert(w, sat_sub(get0(old(self)@, w), x)),
    {
        let cur = self.get_or_zero(w);
        self.set(w, cur.saturating_sub(x));
    }
}

} // verus!
