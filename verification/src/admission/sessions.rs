//! Per-session request bookkeeping: the request that currently owns each
//! session and the requests waiting behind it, in arrival order.

use vstd::prelude::*;
use indexmap::IndexSet;
use super::ordered::{id_entries, ids_distinct, id_set_new, id_set_insert, id_set_shift_remove, id_set_shift_remove_index};

verus! {

/// The requests of one session: the one being served and those waiting.
pub struct SessionEntry {
    pub session_id: String,
    pub current: Option<u64>,
    pub waiting: IndexSet<u64>,
}

/// What a session holds, as plain values.
pub struct SessionView {
    pub current: Option<u64>,
    pub waiting: Seq<u64>,
}

pub open spec fn entry_view(e: SessionEntry) -> SessionView {
    SessionView { current: e.current, waiting: id_entries(e.waiting) }
}

pub open spec fn entries_distinct(s: Seq<SessionEntry>) -> bool {
    forall|i: int, j: int|
        0 <= i < s.len() && 0 <= j < s.len() && i != j ==> s[i].session_id@ != s[j].session_id@
}

pub open spec fn entries_map(s: Seq<SessionEntry>) -> Map<Seq<char>, SessionView> {
    Map::new(
        |k: Seq<char>| exists|i: int| 0 <= i < s.len() && s[i].session_id@ == k,
        |k: Seq<char>| entry_view(s[choose|i: int| 0 <= i < s.len() && s[i].session_id@ == k]),
    )
}

pub proof fn lemma_entries_lookup(s: Seq<SessionEntry>, i: int)
    requires
        entries_distinct(s),
        0 <= i < s.len(),
    ensures
        entries_map(s).contains_key(s[i].session_id@),
        entries_map(s)[s[i].session_id@] == entry_view(s[i]),
{
    let j = choose|j: int| 0 <= j < s.len() && s[j].session_id@ == s[i].session_id@;
    assert(s[j].session_id@ == s[i].session_id@);
}

/// Replacing the entry at `i` by one with the same session id updates that key.
pub proof fn lemma_entries_replace(s: Seq<SessionEntry>, i: int, e: SessionEntry)
    requires
        entries_distinct(s),
        0 <= i < s.len(),
        e.session_id@ == s[i].session_id@,
    ensures
        entries_distinct(s.update(i, e)),
        entries_map(s.update(i, e)) == entries_map(s).insert(e.session_id@, entry_view(e)),
{
    let t = s.update(i, e);
    let k = e.session_id@;
    assert forall|v: Seq<char>| #![auto] entries_map(t).contains_key(v) <==> entries_map(s).insert(k, entry_view(e)).contains_key(v) by {
        if exists|j: int| 0 <= j < s.len() && s[j].session_id@ == v {
            let j = choose|j: int| 0 <= j < s.len() && s[j].session_id@ == v;
            assert(t[j].session_id@ == v);
        }
        if exists|j: int| 0 <= j < t.len() && t[j].session_id@ == v {
            let j = choose|j: int| 0 <= j < t.len() && t[j].session_id@ == v;
            assert(s[j].session_id@ == v);
        }
        if v == k {
            assert(t[i].session_id@ == v);
        }
    }
    assert forall|v: Seq<char>| #![auto] entries_map(t).contains_key(v) implies entries_map(t)[v] == entries_map(s).insert(k, entry_view(e))[v] by {
        let j = choose|j: int| 0 <= j < t.len() && t[j].session_id@ == v;
        lemma_entries_lookup(t, j);
        if j != i {
            lemma_entries_lookup(s, j);
        }
    }
    assert(entries_map(t) =~= entries_map(s).insert(k, entry_view(e)));
}

/// Appending an entry with a fresh session id adds that key.
pub proof fn lemma_entries_push(s: Seq<SessionEntry>, e: SessionEntry)
    requires
        entries_distinct(s),
        !entries_map(s).contains_key(e.session_id@),
    ensures
        entries_distinct(s.push(e)),
        entries_map(s.push(e)) == entries_map(s).insert(e.session_id@, entry_view(e)),
{
    let t = s.push(e);
    let k = e.session_id@;
    let n = s.len() as int;
    assert forall|i: int, j: int| 0 <= i < t.len() && 0 <= j < t.len() && i != j implies t[i].session_id@ != t[j].session_id@ by {
        if i == n {
            if t[j].session_id@ == k {
                assert(s[j].session_id@ == k);
            }
        } else if j == n {
            if t[i].session_id@ == k {
                assert(s[i].session_id@ == k);
            }
        }
    }
    assert forall|v: Seq<char>| #![auto] entries_map(t).contains_key(v) <==> entries_map(s).insert(k, entry_view(e)).contains_key(v) by {
        if exists|j: int| 0 <= j < s.len() && s[j].session_id@ == v {
            let j = choose|j: int| 0 <= j < s.len() && s[j].session_id@ == v;
            assert(t[j].session_id@ == v);
        }
        if exists|j: int| 0 <= j < t.len() && t[j].session_id@ == v {
            let j = choose|j: int| 0 <= j < t.len() && t[j].session_id@ == v;
            if j < n {
                assert(s[j].session_id@ == v);
            }
        }
        if v == k {
            assert(t[n].session_id@ == v);
        }
    }
    assert forall|v: Seq<char>| #![auto] entries_map(t).contains_key(v) implies entries_map(t)[v] == entries_map(s).insert(k, entry_view(e))[v] by {
        let j = choose|j: int| 0 <= j < t.len() && t[j].session_id@ == v;
        lemma_entries_lookup(t, j);
        if j < n {
            lemma_entries_lookup(s, j);
        }
    }
    assert(entries_map(t) =~= entries_map(s).insert(k, entry_view(e)));
}

/// Removing the entry at `i` removes its key.
pub proof fn lemma_entries_remove(s: Seq<SessionEntry>, i: int)
    requires
        entries_distinct(s),
        0 <= i < s.len(),
    ensures
        entries_distinct(s.remove(i)),
        entries_map(s.remove(i)) == entries_map(s).remove(s[i].session_id@),
{
    let t = s.remove(i);
    let k = s[i].session_id@;
    assert forall|a: int, b: int| 0 <= a < t.len() && 0 <= b < t.len() && a != b implies t[a].session_id@ != t[b].session_id@ by {
        let a2 = if a < i { a } else { a + 1 };
        let b2 = if b < i { b } else { b + 1 };
        assert(t[a] == s[a2]);
        assert(t[b] == s[b2]);
    }
    assert forall|v: Seq<char>| #![auto] entries_map(t).contains_key(v) <==> entries_map(s).remove(k).contains_key(v) by {
        if exists|j: int| 0 <= j < s.len() && s[j].session_id@ == v && v != k {
            let j = choose|j: int| 0 <= j < s.len() && s[j].session_id@ == v && v != k;
            if j < i {
                assert(t[j].session_id@ == v);
            } else {
                assert(j != i);
                assert(t[j - 1].session_id@ == v);
            }
        }
        if exists|j: int| 0 <= j < t.len() && t[j].session_id@ == v {
            let j = choose|j: int| 0 <= j < t.len() && t[j].session_id@ == v;
            let j2 = if j < i { j } else { j + 1 };
            assert(s[j2].session_id@ == v);
            assert(j2 != i);
        }
    }
    assert forall|v: Seq<char>| #![auto] entries_map(t).contains_key(v) implies entries_map(t)[v] == entries_map(s).remove(k)[v] by {
        let j = choose|j: int| 0 <= j < t.len() && t[j].session_id@ == v;
        lemma_entries_lookup(t, j);
        let j2 = if j < i { j } else { j + 1 };
        assert(t[j] == s[j2]);
        lemma_entries_lookup(s, j2);
    }
    assert(entries_map(t) =~= entries_map(s).remove(k));
}

/// The sessions that have requests, keyed by session id.
pub struct SessionTable {
    entries: Vec<SessionEntry>,
}

impl View for SessionTable {
    type V = Map<Seq<char>, SessionView>;

    closed spec fn view(&self) -> Map<Seq<char>, SessionView> {
        entries_map(self.entries@)
    }
}

/// The request that currently owns session `s`, if any.
pub open spec fn current_of(m: Map<Seq<char>, SessionView>, s: Seq<char>) -> Option<u64> {
    if m.contains_key(s) {
        m[s].current
    } else {
        None
    }
}

/// The requests waiting on session `s`, in arrival order.
pub open spec fn waiting_of(m: Map<Seq<char>, SessionView>, s: Seq<char>) -> Seq<u64> {
    if m.contains_key(s) {
        m[s].waiting
    } else {
        Seq::empty()
    }
}

/// Session `s` with its current request set to `c` (created when missing).
pub open spec fn with_current(m: Map<Seq<char>, SessionView>, s: Seq<char>, c: Option<u64>) -> Map<
    Seq<char>,
    SessionView,
> {
    m.insert(s, SessionView { current: c, waiting: waiting_of(m, s) })
}

pub open spec fn sessions_wf(m: Map<Seq<char>, SessionView>) -> bool {
    forall|s: Seq<char>| #[trigger] m.contains_key(s) ==> ids_distinct(m[s].waiting)
}

/// The position of `x` in a sequence of distinct ids.
pub open spec fn id_index(s: Seq<u64>, x: u64) -> int {
    choose|i: int| 0 <= i < s.len() && s[i] == x
}

impl SessionTable {
    pub closed spec fn wf(&self) -> bool {
        &&& entries_distinct(self.entries@)
        &&& forall|i: int| 0 <= i < self.entries@.len() ==> ids_distinct(#[trigger] id_entries(self.entries@[i].waiting))
    }

    pub proof fn lemma_wf(&self)
        requires
            self.wf(),
        ensures
            sessions_wf(self@),
    {
        assert forall|s: Seq<char>| #[trigger] self@.contains_key(s) implies ids_distinct(self@[s].waiting) by {
            let j = choose|j: int| 0 <= j < self.entries@.len() && self.entries@[j].session_id@ == s;
            lemma_entries_lookup(self.entries@, j);
            assert(ids_distinct(id_entries(self.entries@[j].waiting)));
        }
    }

    pub fn new() -> (t: SessionTable)
        ensures
            t.wf(),
            t@ == Map::<Seq<char>, SessionView>::empty(),
    {
        let t = SessionTable { entries: Vec::new() };
        assert(t@ =~= Map::<Seq<char>, SessionView>::empty());
        t
    }

    fn position(&self, s: &String) -> (r: Option<usize>)
        requires
            self.wf(),
        ensures
            match r {
                Some(i) => i < self.entries@.len() && self.entries@[i as int].session_id@ == s@,
                None => !self@.contains_key(s@),
            },
    {
        let mut i: usize = 0;
        while i < self.entries.len()
            invariant
                i <= self.entries@.len(),
                forall|j: int| 0 <= j < i ==> self.entries@[j].session_id@ != s@,
            decreases self.entries@.len() - i,
        {
            if self.entries[i].session_id == *s {
                return Some(i);
            }
            i = i + 1;
        }
        None
    }

    /// Whether session `s` has requests.
    pub fn contains(&self, s: &String) -> (r: bool)
        requires
            self.wf(),
        ensures
            r == self@.contains_key(s@),
    {
        match self.position(s) {
            Some(i) => {
                proof {
                    lemma_entries_lookup(self.entries@, i as int);
                }
                true
            },
            None => false,
        }
    }

    /// The request that currently owns session `s`.
    pub fn current(&self, s: &String) -> (r: Option<u64>)
        requires
            self.wf(),
        ensures
            r == current_of(self@, s@),
    {
        match self.position(s) {
            Some(i) => {
                proof {
                    lemma_entries_lookup(self.entries@, i as int);
                }
                self.entries[i].current
            },
            None => None,
        }
    }

    /// The first request waiting on session `s`.
    pub fn first_waiting(&self, s: &String) -> (r: Option<u64>)
        requires
            self.wf(),
        ensures
            waiting_of(self@, s@).len() > 0 ==> r == Some(waiting_of(self@, s@)[0]),
            waiting_of(self@, s@).len() == 0 ==> r is None,
    {
        match self.position(s) {
            Some(i) => {
                proof {
                    lemma_entries_lookup(self.entries@, i as int);
                }
                let e = &self.entries[i];
                super::ordered::id_set_get_index(&e.waiting, 0)
            },
            None => None,
        }
    }

    /// Makes `c` the current request of session `s`, creating the session.
    pub fn set_current(&mut self, s: &String, c: Option<u64>)
        requires
            old(self).wf(),
        ensures
            final(self).wf(),
            final(self)@ == with_current(old(self)@, s@, c),
    {
        proof {
            old(self).lemma_wf();
        }
        match self.position(s) {
            Some(i) => {
                proof {
                    lemma_entries_lookup(self.entries@, i as int);
                }
                let e = self.entries.remove(i);
                let e2 = SessionEntry { session_id: e.session_id, current: c, waiting: e.waiting };
                self.entries.insert(i, e2);
                proof {
                    assert(self.entries@ =~= old(self).entries@.update(i as int, e2));
                    lemma_entries_replace(old(self).entries@, i as int, e2);
                    assert(entry_view(e2) == SessionView { current: c, waiting: waiting_of(old(self)@, s@) });
                    assert forall|j: int| 0 <= j < self.entries@.len() implies ids_distinct(#[trigger] id_entries(self.entries@[j].waiting)) by {
                        if j != i {
                            assert(self.entries@[j] == old(self).entries@[j]);
                        }
                    }
                }
            },
            None => {
                let e2 = SessionEntry { session_id: s.clone(), current: c, waiting: id_set_new() };
                self.entries.push(e2);
                proof {
                    lemma_entries_push(old(self).entries@, e2);
                    assert(entry_view(e2).waiting =~= waiting_of(old(self)@, s@));
                    assert forall|j: int| 0 <= j < self.entries@.len() implies ids_distinct(#[trigger] id_entries(self.entries@[j].waiting)) by {
                        if j < old(self).entries@.len() {
                            assert(self.entries@[j] == old(self).entries@[j]);
                        }
                    }
                }
            },
        }
    }

    /// Queues `x` behind the current request of session `s` (no duplicates).
    pub fn push_waiting(&mut self, s: &String, x: u64)
        requires
            old(self).wf(),
            old(self)@.contains_key(s@),
        ensures
            final(self).wf(),
            final(self)@ == old(self)@.insert(
                s@,
                SessionView {
                    current: current_of(old(self)@, s@),
                    waiting: if waiting_of(old(self)@, s@).contains(x) {
                        waiting_of(old(self)@, s@)
                    } else {
                        waiting_of(old(self)@, s@).push(x)
                    },
                },
            ),
    {
        match self.position(s) {
            Some(i) => {
                proof {
                    lemma_entries_lookup(self.entries@, i as int);
                }
                let e = self.entries.remove(i);
                let mut w = e.waiting;
                id_set_insert(&mut w, x);
                let e2 = SessionEntry { session_id: e.session_id, current: e.current, waiting: w };
                self.entries.insert(i, e2);
                proof {
                    assert(self.entries@ =~= old(self).entries@.update(i as int, e2));
                    lemma_entries_replace(old(self).entries@, i as int, e2);
                    assert forall|j: int| 0 <= j < self.entries@.len() implies ids_distinct(#[trigger] id_entries(self.entries@[j].waiting)) by {
                        if j != i {
                            assert(self.entries@[j] == old(self).entries@[j]);
                        }
                    }
                }
            },
            None => {},
        }
    }

    /// Drops `x` from the requests waiting on session `s`.
    pub fn remove_waiting(&mut self, s: &String, x: u64)
        requires
            old(self).wf(),
        ensures
            final(self).wf(),
            !old(self)@.contains_key(s@) || !waiting_of(old(self)@, s@).contains(x) ==> final(self)@
                == old(self)@,
            old(self)@.contains_key(s@) && waiting_of(old(self)@, s@).contains(x) ==> final(self)@
                == old(self)@.insert(
                s@,
                SessionView {
                    current: current_of(old(self)@, s@),
                    waiting: waiting_of(old(self)@, s@).remove(id_index(waiting_of(old(self)@, s@), x)),
                },
            ),
    {
        match self.position(s) {
            Some(i) => {
                proof {
                    lemma_entries_lookup(self.entries@, i as int);
                }
                let e = self.entries.remove(i);
                let mut w = e.waiting;
                let removed = id_set_shift_remove(&mut w, x);
                let e2 = SessionEntry { session_id: e.session_id, current: e.current, waiting: w };
                self.entries.insert(i, e2);
                proof {
                    assert(self.entries@ =~= old(self).entries@.update(i as int, e2));
                    lemma_entries_replace(old(self).entries@, i as int, e2);
                    assert forall|j: int| 0 <= j < self.entries@.len() implies ids_distinct(#[trigger] id_entries(self.entries@[j].waiting)) by {
                        if j != i {
                            assert(self.entries@[j] == old(self).entries@[j]);
                        }
                    }
                    if !removed {
                        assert(entry_view(e2) == entry_view(old(self).entries@[i as int]));
                        assert(self@ =~= old(self)@);
                    }
                }
            },
            None => {},
        }
    }

    /// Takes the first request waiting on session `s`.
    pub fn pop_waiting(&mut self, s: &String) -> (r: Option<u64>)
        requires
            old(self).wf(),
        ensures
            final(self).wf(),
            waiting_of(old(self)@, s@).len() == 0 ==> r is None && final(self)@ == old(self)@,
            waiting_of(old(self)@, s@).len() > 0 ==> r == Some(waiting_of(old(self)@, s@)[0])
                && final(self)@ == old(self)@.insert(
                s@,
                SessionView {
                    current: current_of(old(self)@, s@),
                    waiting: waiting_of(old(self)@, s@).drop_first(),
                },
            ),
    {
        match self.position(s) {
            Some(i) => {
                proof {
                    lemma_entries_lookup(self.entries@, i as int);
                }
                let e = self.entries.remove(i);
                let mut w = e.waiting;
                let r = id_set_shift_remove_index(&mut w, 0);
                let e2 = SessionEntry { session_id: e.session_id, current: e.current, waiting: w };
                self.entries.insert(i, e2);
                proof {
                    assert(self.entries@ =~= old(self).entries@.update(i as int, e2));
                    lemma_entries_replace(old(self).entries@, i as int, e2);
                    assert forall|j: int| 0 <= j < self.entries@.len() implies ids_distinct(#[trigger] id_entries(self.entries@[j].waiting)) by {
                        if j != i {
                            assert(self.entries@[j] == old(self).entries@[j]);
                        }
                    }
                    if r is None {
                        assert(entry_view(e2) == entry_view(old(self).entries@[i as int]));
                        assert(self@ =~= old(self)@);
                    } else {
                        assert(id_entries(w) =~= waiting_of(old(self)@, s@).drop_first());
                    }
                }
                r
            },
            None => None,
        }
    }

    /// Forgets session `s`.
    pub fn remove(&mut self, s: &String)
        requires
            old(self).wf(),
        ensures
            final(self).wf(),
            final(self)@ == old(self)@.remove(s@),
    {
        match self.position(s) {
            Some(i) => {
                proof {
                    lemma_entries_remove(self.entries@, i as int);
                }
                let _e = self.entries.remove(i);
                proof {
                    assert forall|j: int| 0 <= j < self.entries@.len() implies ids_distinct(#[trigger] id_entries(self.entries@[j].waiting)) by {
                        let j2 = if j < i { j } else { j + 1 };
                        assert(self.entries@[j] == old(self).entries@[j2]);
                    }
                }
            },
            None => {
                assert(old(self)@.remove(s@) =~= old(self)@);
            },
        }
    }
}

} // verus!
