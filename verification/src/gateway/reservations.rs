//! The picker's in-flight bookings: for each gateway request id, the
//! reservation id the picker minted when it asked the selector to book load.
//! Lifecycle callbacks carry only the request id; the book maps it back.

use vstd::prelude::*;
use super::pods::{IdentifiedPod, PoolState, endpoint_for};
use super::router::{headers_for, route_selected, PickRefusal};

verus! {

pub open spec fn bookings_distinct(s: Seq<(String, String)>) -> bool {
    forall|i: int, j: int| 0 <= i < s.len() && 0 <= j < s.len() && i != j ==> s[i].0@ != s[j].0@
}

pub open spec fn bookings_map(s: Seq<(String, String)>) -> Map<Seq<char>, Seq<char>> {
    Map::new(
        |k: Seq<char>| exists|i: int| 0 <= i < s.len() && s[i].0@ == k,
        |k: Seq<char>| s[choose|i: int| 0 <= i < s.len() && s[i].0@ == k].1@,
    )
}

proof fn lemma_bookings_lookup(s: Seq<(String, String)>, i: int)
    requires
        bookings_distinct(s),
        0 <= i < s.len(),
    ensures
        bookings_map(s).contains_key(s[i].0@),
        bookings_map(s)[s[i].0@] == s[i].1@,
{
    let j = choose|j: int| 0 <= j < s.len() && s[j].0@ == s[i].0@;
    assert(s[j].0@ == s[i].0@);
}

proof fn lemma_bookings_replace(s: Seq<(String, String)>, i: int, e: (String, String))
    requires
        bookings_distinct(s),
        0 <= i < s.len(),
        e.0@ == s[i].0@,
    ensures
        bookings_distinct(s.update(i, e)),
        bookings_map(s.update(i, e)) == bookings_map(s).insert(e.0@, e.1@),
{
    let t = s.update(i, e);
    let k = e.0@;
    assert forall|v: Seq<char>| #![auto] bookings_map(t).contains_key(v) <==> bookings_map(s).insert(k, e.1@).contains_key(v) by {
        if exists|j: int| 0 <= j < s.len() && s[j].0@ == v {
            let j = choose|j: int| 0 <= j < s.len() && s[j].0@ == v;
            assert(t[j].0@ == v);
        }
        if exists|j: int| 0 <= j < t.len() && t[j].0@ == v {
            let j = choose|j: int| 0 <= j < t.len() && t[j].0@ == v;
            assert(s[j].0@ == v);
        }
        if v == k {
            assert(t[i].0@ == v);
        }
    }
    assert forall|v: Seq<char>| #![auto] bookings_map(t).contains_key(v) implies bookings_map(t)[v] == bookings_map(s).insert(k, e.1@)[v] by {
        let j = choose|j: int| 0 <= j < t.len() && t[j].0@ == v;
        lemma_bookings_lookup(t, j);
        if j != i {
            lemma_bookings_lookup(s, j);
        }
    }
    assert(bookings_map(t) =~= bookings_map(s).insert(k, e.1@));
}

proof fn lemma_bookings_push(s: Seq<(String, String)>, e: (String, String))
    requires
        bookings_distinct(s),
        !bookings_map(s).contains_key(e.0@),
    ensures
        bookings_distinct(s.push(e)),
        bookings_map(s.push(e)) == bookings_map(s).insert(e.0@, e.1@),
{
    let t = s.push(e);
    let k = e.0@;
    let n = s.len() as int;
    assert forall|i: int, j: int| 0 <= i < t.len() && 0 <= j < t.len() && i != j implies t[i].0@ != t[j].0@ by {
        if i == n {
            if t[j].0@ == k {
                assert(s[j].0@ == k);
            }
        } else if j == n {
            if t[i].0@ == k {
                assert(s[i].0@ == k);
            }
        }
    }
    assert forall|v: Seq<char>| #![auto] bookings_map(t).contains_key(v) <==> bookings_map(s).insert(k, e.1@).contains_key(v) by {
        if exists|j: int| 0 <= j < s.len() && s[j].0@ == v {
            let j = choose|j: int| 0 <= j < s.len() && s[j].0@ == v;
            assert(t[j].0@ == v);
        }
        if exists|j: int| 0 <= j < t.len() && t[j].0@ == v {
            let j = choose|j: int| 0 <= j < t.len() && t[j].0@ == v;
            if j < n {
                assert(s[j].0@ == v);
            }
        }
        if v == k {
            assert(t[n].0@ == v);
        }
    }
    assert forall|v: Seq<char>| #![auto] bookings_map(t).contains_key(v) implies bookings_map(t)[v] == bookings_map(s).insert(k, e.1@)[v] by {
        let j = choose|j: int| 0 <= j < t.len() && t[j].0@ == v;
        lemma_bookings_lookup(t, j);
        if j < n {
            lemma_bookings_lookup(s, j);
        }
    }
    assert(bookings_map(t) =~= bookings_map(s).insert(k, e.1@));
}

proof fn lemma_bookings_remove(s: Seq<(String, String)>, i: int)
    requires
        bookings_distinct(s),
        0 <= i < s.len(),
    ensures
        bookings_distinct(s.remove(i)),
        bookings_map(s.remove(i)) == bookings_map(s).remove(s[i].0@),
{
    let t = s.remove(i);
    let k = s[i].0@;
    assert forall|a: int, b: int| 0 <= a < t.len() && 0 <= b < t.len() && a != b implies t[a].0@ != t[b].0@ by {
        let a2 = if a < i { a } else { a + 1 };
        let b2 = if b < i { b } else { b + 1 };
        assert(t[a] == s[a2]);
        assert(t[b] == s[b2]);
    }
    assert forall|v: Seq<char>| #![auto] bookings_map(t).contains_key(v) <==> bookings_map(s).remove(k).contains_key(v) by {
        if exists|j: int| 0 <= j < s.len() && s[j].0@ == v && v != k {
            let j = choose|j: int| 0 <= j < s.len() && s[j].0@ == v && v != k;
            if j < i {
                assert(t[j].0@ == v);
            } else {
                assert(j != i);
                assert(t[j - 1].0@ == v);
            }
        }
        if exists|j: int| 0 <= j < t.len() && t[j].0@ == v {
            let j = choose|j: int| 0 <= j < t.len() && t[j].0@ == v;
            let j2 = if j < i { j } else { j + 1 };
            assert(s[j2].0@ == v);
            assert(j2 != i);
        }
    }
    assert forall|v: Seq<char>| #![auto] bookings_map(t).contains_key(v) implies bookings_map(t)[v] == bookings_map(s).remove(k)[v] by {
        let j = choose|j: int| 0 <= j < t.len() && t[j].0@ == v;
        lemma_bookings_lookup(t, j);
        let j2 = if j < i { j } else { j + 1 };
        assert(t[j] == s[j2]);
        lemma_bookings_lookup(s, j2);
    }
    assert(bookings_map(t) =~= bookings_map(s).remove(k));
}

/// The in-flight bookings, keyed by gateway request id.
pub struct ReservationBook {
    entries: Vec<(String, String)>,
}

impl View for ReservationBook {
    type V = Map<Seq<char>, Seq<char>>;

    closed spec fn view(&self) -> Map<Seq<char>, Seq<char>> {
        bookings_map(self.entries@)
    }
}

impl ReservationBook {
    /// Each request id is booked at most once.
    pub closed spec fn wf(&self) -> bool {
        bookings_distinct(self.entries@)
    }

    pub fn new() -> (b: Self)
        ensures
            b.wf(),
            b@ == Map::<Seq<char>, Seq<char>>::empty(),
    {
        let b = ReservationBook { entries: Vec::new() };
        assert(b@ =~= Map::<Seq<char>, Seq<char>>::empty());
        b
    }

    fn position(&self, request_id: &String) -> (r: Option<usize>)
        requires
            self.wf(),
        ensures
            match r {
                Some(i) => i < self.entries@.len() && self.entries@[i as int].0@ == request_id@,
                None => !self@.contains_key(request_id@),
            },
    {
        let mut i: usize = 0;
        while i < self.entries.len()
            invariant
                i <= self.entries@.len(),
                forall|j: int| 0 <= j < i ==> self.entries@[j].0@ != request_id@,
            decreases self.entries@.len() - i,
        {
            if self.entries[i].0 == *request_id {
                return Some(i);
            }
            i = i + 1;
        }
        None
    }

    /// Records that `request_id` booked `reservation_id` (a reused request id
    /// takes the new reservation).
    pub fn book(&mut self, request_id: String, reservation_id: String)
        requires
            old(self).wf(),
        ensures
            final(self).wf(),
            final(self)@ == old(self)@.insert(request_id@, reservation_id@),
    {
        match self.position(&request_id) {
            Some(i) => {
                let e = (request_id, reservation_id);
                proof {
                    lemma_bookings_replace(self.entries@, i as int, e);
                }
                self.entries.set(i, e);
            },
            None => {
                let e = (request_id, reservation_id);
                proof {
                    lemma_bookings_push(self.entries@, e);
                }
                self.entries.push(e);
            },
        }
    }

    /// Drops the booking of `request_id` and returns its reservation id, to
    /// be freed; `None` when the request booked nothing (or was already
    /// released), so releasing twice frees once.
    pub fn release(&mut self, request_id: &String) -> (r: Option<String>)
        requires
            old(self).wf(),
        ensures
            final(self).wf(),
            final(self)@ == old(self)@.remove(request_id@),
            match r {
                Some(x) => old(self)@.contains_key(request_id@) && x@ == old(self)@[request_id@],
                None => !old(self)@.contains_key(request_id@),
            },
    {
        match self.position(request_id) {
            Some(i) => {
                proof {
                    lemma_bookings_remove(self.entries@, i as int);
                    lemma_bookings_lookup(self.entries@, i as int);
                }
                let e = self.entries.remove(i);
                Some(e.1)
            },
            None => {
                assert(old(self)@.remove(request_id@) =~= old(self)@);
                None
            },
        }
    }

    /// The reservation `request_id` booked, if it is still in flight.
    pub fn reservation_of(&self, request_id: &String) -> (r: Option<String>)
        requires
            self.wf(),
        ensures
            match r {
                Some(x) => self@.contains_key(request_id@) && x@ == self@[request_id@],
                None => !self@.contains_key(request_id@),
            },
    {
        match self.position(request_id) {
            Some(i) => {
                proof {
                    lemma_bookings_lookup(self.entries@, i as int);
                }
                Some(self.entries[i].1.clone())
            },
            None => None,
        }
    }
}

/// The selector booked worker `worker_id` for the request `request_id`:
/// routes it to the worker's current endpoint with its routing headers,
/// keeping the booking until the request completes. A choice that can no
/// longer be resolved is stale: the request is refused with `NoEndpoints`,
/// its booking is dropped, and the reservation to free is returned with the
/// refusal.
pub fn settle_selection(
    book: &mut ReservationBook,
    request_id: &String,
    pods: &[IdentifiedPod],
    pool: &Option<PoolState>,
    kv_event_port: u16,
    replay_port: Option<u16>,
    worker_id: u64,
) -> (r: Result<(String, Vec<(String, String)>), (PickRefusal, Option<String>)>)
    requires
        old(book).wf(),
    ensures
        final(book).wf(),
        ({
            let target = match pool {
                None => None,
                Some(pl) => endpoint_for(pods@, *pl, kv_event_port, replay_port, worker_id, 0),
            };
            match target {
                Some(e) => {
                    &&& r matches Ok((ep, h)) && ep@ == e && headers_for(h@, worker_id)
                    &&& final(book)@ == old(book)@
                },
                None => {
                    &&& r matches Err((refusal, freed)) && refusal == PickRefusal::NoEndpoints && match freed {
                        Some(x) => old(book)@.contains_key(request_id@) && x@ == old(book)@[request_id@],
                        None => !old(book)@.contains_key(request_id@),
                    }
                    &&& final(book)@ == old(book)@.remove(request_id@)
                },
            }
        }),
{
    match route_selected(pods, pool, kv_event_port, replay_port, worker_id) {
        Ok(routed) => Ok(routed),
        Err(refusal) => {
            let freed = book.release(request_id);
            Err((refusal, freed))
        },
    }
}

} // verus!
