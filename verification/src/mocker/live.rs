//! The live-request boundary of a Mocker scheduler: the response stream of
//! each active request, kept in a `dashmap::DashMap` keyed by request id, so
//! scheduler outputs reach their owner and a finished or cancelled request is
//! forgotten.

use vstd::prelude::*;
use dashmap::DashMap;
use dashmap::mapref::entry::Entry;
use tokio::sync::mpsc::UnboundedSender;
use super::server::OutputSignal;
use crate::text::push_str;
use vstd::arithmetic::power::pow;

verus! {

#[verifier::external_type_specification]
#[verifier::external_body]
#[verifier::reject_recursive_types(K)]
#[verifier::reject_recursive_types(V)]
#[verifier::reject_recursive_types(S)]
pub struct ExDashMap<K, V, S>(DashMap<K, V, S>);

#[verifier::external_type_specification]
#[verifier::external_body]
#[verifier::reject_recursive_types(T)]
pub struct ExUnboundedSender<T>(UnboundedSender<T>);

/// The ids of the requests that hold a response stream in the map.
pub uninterp spec fn stream_ids(m: DashMap<u128, UnboundedSender<OutputSignal>>) -> Set<u128>;

/// The signals handed through the map to the stream of each request id, in
/// the order they were sent, since that id's stream was put into the map.
/// Removing an entry hands nothing and so leaves the record as it was;
/// whether the reader takes a signal is up to the reader.
pub uninterp spec fn handed(m: DashMap<u128, UnboundedSender<OutputSignal>>) -> Map<u128, Seq<OutputSignal>>;

/// No stream has been handed anything.
pub open spec fn nothing_handed() -> Map<u128, Seq<OutputSignal>> {
    Map::empty()
}

/// `DashMap::new`: an empty map, through which nothing has been handed.
#[verifier::external_body]
fn streams_new() -> (m: DashMap<u128, UnboundedSender<OutputSignal>>)
    ensures
        stream_ids(m) == Set::<u128>::empty(),
        handed(m) == nothing_handed(),
{
    DashMap::new()
}

/// `DashMap::len`: the number of entries.
#[verifier::external_body]
fn streams_len(m: &DashMap<u128, UnboundedSender<OutputSignal>>) -> (n: usize)
    ensures
        n == stream_ids(*m).len(),
{
    m.len()
}

/// `DashMap::contains_key`: whether `id` has an entry.
#[verifier::external_body]
fn streams_contains(m: &DashMap<u128, UnboundedSender<OutputSignal>>, id: u128) -> (r: bool)
    ensures
        r == stream_ids(*m).contains(id),
{
    m.contains_key(&id)
}

/// `DashMap::entry`: inserts `tx` under `id` when `id` has no entry, and
/// leaves an existing entry untouched; returns whether it inserted. A newly
/// inserted stream has been handed nothing yet.
#[verifier::external_body]
fn streams_insert_vacant(
    m: &mut DashMap<u128, UnboundedSender<OutputSignal>>,
    id: u128,
    tx: UnboundedSender<OutputSignal>,
) -> (inserted: bool)
    ensures
        inserted == !stream_ids(*old(m)).contains(id),
        stream_ids(*final(m)) == stream_ids(*old(m)).insert(id),
        inserted ==> handed(*final(m)) == handed(*old(m)).insert(id, Seq::<OutputSignal>::empty()),
        !inserted ==> handed(*final(m)) == handed(*old(m)),
{
    match m.entry(id) {
        Entry::Occupied(_) => false,
        Entry::Vacant(entry) => {
            entry.insert(tx);
            true
        },
    }
}

/// `DashMap::remove`: removes the entry of `id`; returns whether there was one.
/// Nothing is handed to any stream.
#[verifier::external_body]
fn streams_remove(m: &mut DashMap<u128, UnboundedSender<OutputSignal>>, id: u128) -> (removed: bool)
    ensures
        removed == stream_ids(*old(m)).contains(id),
        stream_ids(*final(m)) == stream_ids(*old(m)).remove(id),
        handed(*final(m)) == handed(*old(m)),
{
    m.remove(&id).is_some()
}

/// `DashMap::get` and `UnboundedSender::send`: hands `signal` to the stream
/// of `id` when `id` has an entry, and returns whether it has one. The
/// entries stay as they are; only the stream of `id` is handed anything.
/// Whether the reader still listens is up to the reader, so nothing is
/// stated of what it receives.
#[verifier::external_body]
fn streams_send(m: &mut DashMap<u128, UnboundedSender<OutputSignal>>, id: u128, signal: OutputSignal) -> (sent: bool)
    ensures
        sent == stream_ids(*old(m)).contains(id),
        stream_ids(*final(m)) == stream_ids(*old(m)),
        sent ==> handed(*final(m)) == handed(*old(m)).insert(id, handed(*old(m))[id].push(signal)),
        !sent ==> handed(*final(m)) == handed(*old(m)),
{
    match m.get(&id) {
        Some(entry) => {
            let _ = entry.value().send(signal);
            true
        },
        None => false,
    }
}

/// The lower-case hexadecimal digit of `n` (below 16).
pub open spec fn hex_digit(n: int) -> char {
    if n < 10 {
        (48 + n) as char
    } else {
        (87 + n) as char
    }
}

/// The `k`-th hexadecimal digit of `id`, counting from the most significant.
pub open spec fn nibble(id: u128, k: int) -> int {
    (id as int / pow(16, (31 - k) as nat)) % 16
}

/// The position among the 32 digits of the character at `i` of the
/// hyphenated form.
pub open spec fn digit_index(i: int) -> int {
    if i < 8 {
        i
    } else if i < 13 {
        i - 1
    } else if i < 18 {
        i - 2
    } else if i < 23 {
        i - 3
    } else {
        i - 4
    }
}

/// The hyphenated lower-case form of a UUID held as a big-endian `u128`:
/// 32 hex digits grouped 8-4-4-4-12.
pub open spec fn uuid_text(id: u128) -> Seq<char> {
    Seq::new(
        36,
        |i: int|
            if i == 8 || i == 13 || i == 18 || i == 23 {
                '-'
            } else {
                hex_digit(nibble(id, digit_index(i)))
            },
    )
}

/// `Uuid::from_u128` and its `Display`: the hyphenated lower-case text of the
/// UUID whose big-endian value is `id`.
#[verifier::external_body]
fn uuid_string(id: u128) -> (r: String)
    ensures
        r@ == uuid_text(id),
{
    uuid::Uuid::from_u128(id).to_string()
}

/// A request id is already active.
#[derive(Clone, Copy, Debug, PartialEq, Eq, Structural)]
pub struct AlreadyActive {
    pub id: u128,
}

impl AlreadyActive {
    /// The error's text.
    pub fn message(&self) -> (r: String)
        ensures
            r@ == "request "@ + uuid_text(self.id) + " is already active"@,
    {
        let mut m = String::new();
        push_str(&mut m, "request ");
        let text = uuid_string(self.id);
        push_str(&mut m, text.as_str());
        push_str(&mut m, " is already active");
        m
    }
}

/// The response streams of the active requests.
pub struct ActiveRequests {
    streams: DashMap<u128, UnboundedSender<OutputSignal>>,
}

impl ActiveRequests {
    /// The ids of the active requests.
    pub closed spec fn view(&self) -> Set<u128> {
        stream_ids(self.streams)
    }

    /// The signals handed to the stream of each request id since that stream
    /// was registered, in the order they were delivered.
    pub closed spec fn handed_signals(&self) -> Map<u128, Seq<OutputSignal>> {
        handed(self.streams)
    }

    /// Finitely many requests are active, and each active request has a
    /// record of what its stream was handed.
    pub closed spec fn wf(&self) -> bool {
        &&& self.view().finite()
        &&& forall|id: u128| #[trigger] self.view().contains(id) ==> self.handed_signals().contains_key(id)
    }

    pub fn new() -> (r: Self)
        ensures
            r.wf(),
            r.view() == Set::<u128>::empty(),
            r.handed_signals() == nothing_handed(),
    {
        ActiveRequests { streams: streams_new() }
    }

    /// Whether `id` has a live stream.
    pub fn is_active(&self, id: u128) -> (r: bool)
        ensures
            r == self.view().contains(id),
    {
        streams_contains(&self.streams, id)
    }

    /// The number of live streams.
    pub fn count(&self) -> (r: usize)
        requires
            self.wf(),
        ensures
            self.view().finite(),
            r == self.view().len(),
    {
        streams_len(&self.streams)
    }

    /// Registers the stream `tx` for `id`; an id that is already active is
    /// refused and its first stream kept, with what it was handed.
    pub fn register(&mut self, id: u128, tx: UnboundedSender<OutputSignal>) -> (r: Result<(), AlreadyActive>)
        requires
            old(self).wf(),
        ensures
            final(self).wf(),
            old(self).view().contains(id) ==> r == Err::<(), AlreadyActive>(AlreadyActive { id }),
            !old(self).view().contains(id) ==> r is Ok,
            final(self).view() == old(self).view().insert(id),
            r is Ok ==> final(self).handed_signals() == old(self).handed_signals().insert(
                id,
                Seq::<OutputSignal>::empty(),
            ),
            r is Err ==> final(self).handed_signals() == old(self).handed_signals(),
    {
        if streams_insert_vacant(&mut self.streams, id, tx) {
            Ok(())
        } else {
            Err(AlreadyActive { id })
        }
    }

    /// Forgets the stream of `id`; returns whether it was active. No stream
    /// is handed anything.
    pub fn cancel(&mut self, id: u128) -> (r: bool)
        requires
            old(self).wf(),
        ensures
            final(self).wf(),
            r == old(self).view().contains(id),
            final(self).view() == old(self).view().remove(id),
            final(self).handed_signals() == old(self).handed_signals(),
    {
        streams_remove(&mut self.streams, id)
    }

    /// Routes one scheduler output for `id` to its stream: returns whether
    /// the request has one, in which case its stream is handed `signal` after
    /// everything it was handed before and no other stream is handed
    /// anything; a terminal output then also forgets the request.
    pub fn deliver(&mut self, id: u128, signal: OutputSignal) -> (r: bool)
        requires
            old(self).wf(),
        ensures
            final(self).wf(),
            r == old(self).view().contains(id),
            r ==> final(self).handed_signals() == old(self).handed_signals().insert(
                id,
                old(self).handed_signals()[id].push(signal),
            ),
            !r ==> final(self).handed_signals() == old(self).handed_signals(),
            signal.completed ==> final(self).view() == old(self).view().remove(id),
            !signal.completed ==> final(self).view() == old(self).view(),
    {
        let completed = signal.completed;
        let routed = streams_send(&mut self.streams, id, signal);
        if completed {
            let _ = streams_remove(&mut self.streams, id);
        }
        routed
    }
}

} // verus!
