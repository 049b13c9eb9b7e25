//! Replica-sync peers of a replicated endpoint picker: the sibling replicas
//! listed by the EndpointSlices of the picker's own Service, and the named port
//! they synchronize on.

use vstd::prelude::*;
use crate::text::{
    has_colon, is_ipv6, push_char, push_str, push_decimal, decimal, views, str_sorted, sort_strings,
    distinct_strings, dedup_strings, eq_ignore_ascii_case, ascii_eq_ignore_case, str_equal,
};

verus! {

/// The Service port name used for aggregated replica synchronization.
pub const REPLICA_AGG_PORT_NAME: &'static str = "replica-agg";

/// A port listed by an EndpointSlice.
#[derive(Clone, Debug)]
pub struct SlicePort {
    pub name: Option<String>,
    pub port: Option<i32>,
}

/// An endpoint of an EndpointSlice; `terminating` is its condition, if set.
#[derive(Clone, Debug)]
pub struct PeerEndpoint {
    pub addresses: Vec<String>,
    pub terminating: Option<bool>,
}

/// The parts of a Kubernetes EndpointSlice that peer discovery reads.
#[derive(Clone, Debug)]
pub struct PeerSlice {
    pub name: Option<String>,
    pub address_type: String,
    pub endpoints: Vec<PeerEndpoint>,
    pub ports: Option<Vec<SlicePort>>,
}

/// `host:port`, with IPv6 literals bracketed.
pub open spec fn authority_of(ip: Seq<char>, port: u16) -> Seq<char> {
    if has_colon(ip) {
        seq!['['] + ip + seq![']', ':'] + decimal(port as nat)
    } else {
        ip + seq![':'] + decimal(port as nat)
    }
}

/// Formats `host:port`, bracketing IPv6 literals (`fd00::1` becomes
/// `[fd00::1]`) so a `tcp://` endpoint built from it stays valid.
pub fn authority(ip: &str, port: u16) -> (r: String)
    ensures
        r@ == authority_of(ip@, port),
{
    let mut s = String::new();
    if is_ipv6(ip) {
        push_char(&mut s, '[');
        push_str(&mut s, ip);
        push_char(&mut s, ']');
    } else {
        push_str(&mut s, ip);
    }
    push_char(&mut s, ':');
    push_decimal(&mut s, port as u64);
    proof {
        if has_colon(ip@) {
            assert(s@ =~= authority_of(ip@, port));
        } else {
            assert(s@ =~= authority_of(ip@, port));
        }
    }
    s
}

/// The non-empty addresses among the first `n` of endpoint `e`.
pub open spec fn endpoint_addrs_upto(e: PeerEndpoint, n: int) -> Seq<Seq<char>>
    decreases n,
{
    if n <= 0 {
        Seq::empty()
    } else {
        let r = endpoint_addrs_upto(e, n - 1);
        if e.addresses@[n - 1]@.len() > 0 {
            r.push(e.addresses@[n - 1]@)
        } else {
            r
        }
    }
}

/// The addresses an endpoint contributes: none while it is terminating.
pub open spec fn endpoint_addrs(e: PeerEndpoint) -> Seq<Seq<char>> {
    if e.terminating == Some(true) {
        Seq::empty()
    } else {
        endpoint_addrs_upto(e, e.addresses@.len() as int)
    }
}

pub open spec fn slice_addrs_upto(s: PeerSlice, n: int) -> Seq<Seq<char>>
    decreases n,
{
    if n <= 0 {
        Seq::empty()
    } else {
        slice_addrs_upto(s, n - 1) + endpoint_addrs(s.endpoints@[n - 1])
    }
}

pub open spec fn ipv6_type() -> Seq<char> {
    seq!['I', 'P', 'v', '6']
}

/// The addresses a slice contributes: those of its endpoints when its
/// address family is the wanted one.
pub open spec fn slice_addrs(s: PeerSlice, want_ipv6: bool) -> Seq<Seq<char>> {
    if eq_ignore_ascii_case(s.address_type@, ipv6_type()) == want_ipv6 {
        slice_addrs_upto(s, s.endpoints@.len() as int)
    } else {
        Seq::empty()
    }
}

pub open spec fn all_addrs_upto(slices: Seq<PeerSlice>, want_ipv6: bool, n: int) -> Seq<Seq<char>>
    decreases n,
{
    if n <= 0 {
        Seq::empty()
    } else {
        all_addrs_upto(slices, want_ipv6, n - 1) + slice_addrs(slices[n - 1], want_ipv6)
    }
}

/// The peer addresses of the wanted family, each once, in `String` order.
pub open spec fn peer_ip_set(slices: Seq<PeerSlice>, want_ipv6: bool) -> Seq<Seq<char>> {
    str_sorted(distinct_strings(all_addrs_upto(slices, want_ipv6, slices.len() as int)))
}

fn push_endpoint_addrs(out: &mut Vec<String>, e: &PeerEndpoint)
    ensures
        views(final(out)@) == views(old(out)@) + endpoint_addrs(*e),
{
    if e.terminating == Some(true) {
        assert(views(out@) =~= views(old(out)@) + endpoint_addrs(*e));
        return;
    }
    let mut i: usize = 0;
    while i < e.addresses.len()
        invariant
            i <= e.addresses@.len(),
            views(out@) == views(old(out)@) + endpoint_addrs_upto(*e, i as int),
        decreases e.addresses@.len() - i,
    {
        let a = &e.addresses[i];
        if a.as_str().unicode_len() > 0 {
            let ghost o0 = out@;
            out.push(a.clone());
            assert(views(out@) =~= views(o0).push(a@));
            assert(views(out@) =~= views(old(out)@) + endpoint_addrs_upto(*e, i + 1));
        }
        i = i + 1;
    }
}

fn push_slice_addrs(out: &mut Vec<String>, s: &PeerSlice, want_ipv6: bool)
    ensures
        views(final(out)@) == views(old(out)@) + slice_addrs(*s, want_ipv6),
{
    proof {
        reveal_strlit("IPv6");
    }
    if ascii_eq_ignore_case(s.address_type.as_str(), "IPv6") != want_ipv6 {
        assert("IPv6"@ =~= ipv6_type());
        assert(views(out@) =~= views(old(out)@) + slice_addrs(*s, want_ipv6));
        return;
    }
    assert("IPv6"@ =~= ipv6_type());
    let mut i: usize = 0;
    while i < s.endpoints.len()
        invariant
            i <= s.endpoints@.len(),
            views(out@) == views(old(out)@) + slice_addrs_upto(*s, i as int),
        decreases s.endpoints@.len() - i,
    {
        let ghost o0 = views(out@);
        push_endpoint_addrs(out, &s.endpoints[i]);
        assert(views(out@) =~= views(old(out)@) + slice_addrs_upto(*s, i + 1));
        i = i + 1;
    }
}

/// The non-terminating endpoint addresses of the wanted address family, each
/// once and in `String` order. Not-ready endpoints are kept: a peer that is
/// still starting is registered early.
pub fn peer_ips(slices: &[PeerSlice], want_ipv6: bool) -> (r: Vec<String>)
    ensures
        views(r@) == peer_ip_set(slices@, want_ipv6),
{
    let mut all: Vec<String> = Vec::new();
    let mut i: usize = 0;
    while i < slices.len()
        invariant
            i <= slices@.len(),
            views(all@) == all_addrs_upto(slices@, want_ipv6, i as int),
        decreases slices@.len() - i,
    {
        push_slice_addrs(&mut all, &slices[i], want_ipv6);
        i = i + 1;
    }
    let distinct = dedup_strings(&all);
    sort_strings(distinct)
}

/// The elements of `a` that are not `x`, in order.
pub open spec fn without(a: Seq<Seq<char>>, x: Seq<char>) -> Seq<Seq<char>>
    decreases a.len(),
{
    if a.len() == 0 {
        a
    } else if a.last() == x {
        without(a.drop_last(), x)
    } else {
        without(a.drop_last(), x).push(a.last())
    }
}

/// The elements of `a` not in `b`, in order.
pub open spec fn minus(a: Seq<Seq<char>>, b: Seq<Seq<char>>) -> Seq<Seq<char>>
    decreases a.len(),
{
    if a.len() == 0 {
        a
    } else if b.contains(a.last()) {
        minus(a.drop_last(), b)
    } else {
        minus(a.drop_last(), b).push(a.last())
    }
}

/// An address is in `minus(a, b)` exactly when it is in `a` and not in `b`.
pub proof fn lemma_minus_contains(a: Seq<Seq<char>>, b: Seq<Seq<char>>, x: Seq<char>)
    ensures
        minus(a, b).contains(x) <==> (a.contains(x) && !b.contains(x)),
    decreases a.len(),
{
    if a.len() > 0 {
        let d = a.drop_last();
        lemma_minus_contains(d, b, x);
        assert(a =~= d.push(a.last()));
        if d.contains(x) {
            let j = choose|j: int| 0 <= j < d.len() && d[j] == x;
            assert(a[j] == x);
        }
        if a.contains(x) && a.last() != x {
            let j = choose|j: int| 0 <= j < a.len() && a[j] == x;
            assert(j < d.len());
            assert(d[j] == x);
        }
        if !b.contains(a.last()) {
            let m = minus(d, b);
            assert(m.push(a.last())[m.len() as int] == a.last());
            if m.contains(x) {
                let j = choose|j: int| 0 <= j < m.len() && m[j] == x;
                assert(m.push(a.last())[j] == x);
            }
            if m.push(a.last()).contains(x) && a.last() != x {
                let j = choose|j: int| 0 <= j < m.len() + 1 && m.push(a.last())[j] == x;
                assert(m[j] == x);
            }
        }
    }
}

/// Applying a peer delta reaches the live set: a peer stays registered after
/// the removals and additions exactly when it is live, and no peer is both
/// added and removed.
pub proof fn law_peer_delta_reaches_live(live: Seq<Seq<char>>, known: Seq<Seq<char>>, x: Seq<char>)
    ensures
        ((known.contains(x) && !minus(known, live).contains(x)) || minus(live, known).contains(x)) <==> live.contains(x),
        !(minus(live, known).contains(x) && minus(known, live).contains(x)),
{
    lemma_minus_contains(known, live, x);
    lemma_minus_contains(live, known, x);
}

/// The live sibling addresses: the peers of `self_ip`'s address family
/// (so a dual-stack sibling is registered once), without `self_ip` itself.
pub fn live_peer_ips(slices: &[PeerSlice], self_ip: &str) -> (r: Vec<String>)
    ensures
        views(r@) == without(peer_ip_set(slices@, has_colon(self_ip@)), self_ip@),
{
    let ips = peer_ips(slices, is_ipv6(self_ip));
    let ghost src = views(ips@);
    let mut r: Vec<String> = Vec::new();
    let mut i: usize = 0;
    while i < ips.len()
        invariant
            src == views(ips@),
            i <= ips@.len(),
            views(r@) == without(src.take(i as int), self_ip@),
        decreases ips@.len() - i,
    {
        let ghost r0 = views(r@);
        assert(src.take(i + 1).drop_last() =~= src.take(i as int));
        assert(src[i as int] == ips@[i as int]@);
        if !str_equal(ips[i].as_str(), self_ip) {
            r.push(ips[i].clone());
            assert(views(r@) =~= r0.push(ips@[i as int]@));
        }
        i = i + 1;
    }
    assert(src.take(src.len() as int) =~= src);
    r
}

fn contains_view(v: &Vec<String>, x: &String) -> (r: bool)
    ensures
        r == views(v@).contains(x@),
{
    let mut i: usize = 0;
    while i < v.len()
        invariant
            i <= v@.len(),
            forall|j: int| 0 <= j < i ==> v@[j]@ != x@,
        decreases v@.len() - i,
    {
        if v[i] == *x {
            assert(views(v@)[i as int] == x@);
            return true;
        }
        i = i + 1;
    }
    assert forall|j: int| 0 <= j < views(v@).len() implies views(v@)[j] != x@ by {
        assert(views(v@)[j] == v@[j]@);
    }
    false
}

/// The elements of `a` that are not in `b`, in order.
pub fn difference(a: &Vec<String>, b: &Vec<String>) -> (r: Vec<String>)
    ensures
        views(r@) == minus(views(a@), views(b@)),
{
    let ghost src = views(a@);
    let mut r: Vec<String> = Vec::new();
    let mut i: usize = 0;
    while i < a.len()
        invariant
            src == views(a@),
            i <= a@.len(),
            views(r@) == minus(src.take(i as int), views(b@)),
        decreases a@.len() - i,
    {
        let ghost r0 = views(r@);
        assert(src.take(i + 1).drop_last() =~= src.take(i as int));
        assert(src[i as int] == a@[i as int]@);
        if !contains_view(b, &a[i]) {
            r.push(a[i].clone());
            assert(views(r@) =~= r0.push(a@[i as int]@));
        }
        i = i + 1;
    }
    assert(src.take(src.len() as int) =~= src);
    r
}

/// The change from the registered peers `known` to the live ones: the peers
/// to register and those to deregister.
pub fn peer_delta(live: &Vec<String>, known: &Vec<String>) -> (r: (Vec<String>, Vec<String>))
    ensures
        views(r.0@) == minus(views(live@), views(known@)),
        views(r.1@) == minus(views(known@), views(live@)),
{
    (difference(live, known), difference(known, live))
}

/// The `tcp://` endpoint of a peer address on the sync port.
pub fn peer_endpoint(ip: &str, port: u16) -> (r: String)
    ensures
        r@ == seq!['t', 'c', 'p', ':', '/', '/'] + authority_of(ip@, port),
{
    let mut s = String::new();
    proof {
        reveal_strlit("tcp://");
    }
    push_str(&mut s, "tcp://");
    let a = authority(ip, port);
    push_str(&mut s, a.as_str());
    assert(s@ =~= seq!['t', 'c', 'p', ':', '/', '/'] + authority_of(ip@, port));
    s
}

// ---------------------------------------------------------------------------
// The replica-sync port

/// What went wrong resolving the replica-sync port, as plain values.
pub enum PortFault {
    NoSlices,
    MissingPort(Seq<char>),
    DuplicatePort(Seq<char>),
    NoPortNumber(Seq<char>),
    InvalidPort(Seq<char>, i32),
    ZeroPort,
    Inconsistent(Seq<u16>),
}

/// Why the replica-sync port could not be resolved. Slices are named by
/// their metadata name, or `<unnamed>`.
#[derive(Clone, Debug)]
pub enum PortError {
    /// The peer Service has no EndpointSlices.
    NoSlices,
    /// A slice does not list the named port.
    MissingPort { slice: String },
    /// A slice lists the named port more than once.
    DuplicatePort { slice: String },
    /// The named port has no number.
    NoPortNumber { slice: String },
    /// The named port's number is not a `u16`.
    InvalidPort { slice: String, raw: i32 },
    /// The named port is 0.
    ZeroPort,
    /// The slices disagree; the distinct ports, ascending.
    Inconsistent { ports: Vec<u16> },
}

pub open spec fn fault_of(e: PortError) -> PortFault {
    match e {
        PortError::NoSlices => PortFault::NoSlices,
        PortError::MissingPort { slice } => PortFault::MissingPort(slice@),
        PortError::DuplicatePort { slice } => PortFault::DuplicatePort(slice@),
        PortError::NoPortNumber { slice } => PortFault::NoPortNumber(slice@),
        PortError::InvalidPort { slice, raw } => PortFault::InvalidPort(slice@, raw),
        PortError::ZeroPort => PortFault::ZeroPort,
        PortError::Inconsistent { ports } => PortFault::Inconsistent(ports@),
    }
}

pub open spec fn agg_name() -> Seq<char> {
    seq!['r', 'e', 'p', 'l', 'i', 'c', 'a', '-', 'a', 'g', 'g']
}

pub open spec fn unnamed() -> Seq<char> {
    seq!['<', 'u', 'n', 'n', 'a', 'm', 'e', 'd', '>']
}

pub open spec fn slice_name(s: PeerSlice) -> Seq<char> {
    match s.name {
        Some(n) => n@,
        None => unnamed(),
    }
}

pub open spec fn slice_ports(s: PeerSlice) -> Seq<SlicePort> {
    match s.ports {
        Some(v) => v@,
        None => Seq::empty(),
    }
}

pub open spec fn is_agg_port(p: SlicePort) -> bool {
    match p.name {
        Some(n) => n@ == agg_name(),
        None => false,
    }
}

/// The ports named `replica-agg` among the first `n`.
pub open spec fn named_upto(ports: Seq<SlicePort>, n: int) -> Seq<SlicePort>
    decreases n,
{
    if n <= 0 {
        Seq::empty()
    } else if is_agg_port(ports[n - 1]) {
        named_upto(ports, n - 1).push(ports[n - 1])
    } else {
        named_upto(ports, n - 1)
    }
}

/// The sync port one slice declares: exactly one named port, with a number
/// that is a nonzero `u16`.
pub open spec fn slice_sync_port(s: PeerSlice) -> Result<u16, PortFault> {
    let m = named_upto(slice_ports(s), slice_ports(s).len() as int);
    if m.len() == 0 {
        Err(PortFault::MissingPort(slice_name(s)))
    } else if m.len() > 1 {
        Err(PortFault::DuplicatePort(slice_name(s)))
    } else {
        match m[0].port {
            None => Err(PortFault::NoPortNumber(slice_name(s))),
            Some(raw) => if raw < 0 || raw > 65535 {
                Err(PortFault::InvalidPort(slice_name(s), raw))
            } else if raw == 0 {
                Err(PortFault::ZeroPort)
            } else {
                Ok(raw as u16)
            },
        }
    }
}

/// Where `p` goes in the ascending `r`, from `j` on.
pub open spec fn port_pos(r: Seq<u16>, p: u16, j: int) -> int
    decreases r.len() - j,
{
    if j < 0 || j >= r.len() {
        r.len() as int
    } else if r[j] > p {
        j
    } else {
        port_pos(r, p, j + 1)
    }
}

/// `r` with `p` added, kept ascending and without repeats.
pub open spec fn sorted_insert(r: Seq<u16>, p: u16) -> Seq<u16> {
    if r.contains(p) {
        r
    } else {
        r.insert(port_pos(r, p, 0), p)
    }
}

/// The distinct ports of the first `n` slices, ascending, or the first
/// slice's fault.
pub open spec fn resolve_upto(slices: Seq<PeerSlice>, n: int) -> Result<Seq<u16>, PortFault>
    decreases n,
{
    if n <= 0 {
        Ok(Seq::empty())
    } else {
        match resolve_upto(slices, n - 1) {
            Err(f) => Err(f),
            Ok(r) => match slice_sync_port(slices[n - 1]) {
                Err(f) => Err(f),
                Ok(p) => Ok(sorted_insert(r, p)),
            },
        }
    }
}

/// The replica-sync port of a peer Service: every slice must declare the
/// same valid named port.
pub open spec fn sync_port(slices: Seq<PeerSlice>) -> Result<u16, PortFault> {
    match resolve_upto(slices, slices.len() as int) {
        Err(f) => Err(f),
        Ok(r) => if slices.len() == 0 {
            Err(PortFault::NoSlices)
        } else if r.len() != 1 {
            Err(PortFault::Inconsistent(r))
        } else {
            Ok(r[0])
        },
    }
}

fn slice_name_of(s: &PeerSlice) -> (r: String)
    ensures
        r@ == slice_name(*s),
{
    match &s.name {
        Some(n) => n.clone(),
        None => {
            proof {
                reveal_strlit("<unnamed>");
            }
            let r = String::from_str("<unnamed>");
            assert(r@ =~= unnamed());
            r
        },
    }
}

fn slice_sync_port_of(s: &PeerSlice) -> (r: Result<u16, PortError>)
    ensures
        match r {
            Ok(p) => slice_sync_port(*s) == Ok::<u16, PortFault>(p),
            Err(e) => slice_sync_port(*s) == Err::<u16, PortFault>(fault_of(e)),
        },
{
    proof {
        reveal_strlit("replica-agg");
        assert("replica-agg"@ =~= agg_name());
    }
    let empty: Vec<SlicePort> = Vec::new();
    let ports: &Vec<SlicePort> = match &s.ports {
        Some(v) => v,
        None => &empty,
    };
    assert(ports@ == slice_ports(*s));
    let mut count: usize = 0;
    let mut first: Option<Option<i32>> = None;
    let mut i: usize = 0;
    while i < ports.len()
        invariant
            i <= ports@.len(),
            ports@ == slice_ports(*s),
            "replica-agg"@ == agg_name(),
            count == named_upto(ports@, i as int).len(),
            count <= i,
            count == 0 <==> first is None,
            first is Some ==> first->0 == named_upto(ports@, i as int)[0].port,
        decreases ports@.len() - i,
    {
        let named = match &ports[i].name {
            Some(n) => str_equal(n.as_str(), REPLICA_AGG_PORT_NAME),
            None => false,
        };
        assert(named == is_agg_port(ports@[i as int]));
        if named {
            if count == 0 {
                first = Some(ports[i].port);
            }
            assert(named_upto(ports@, i + 1) == named_upto(ports@, i as int).push(ports@[i as int]));
            count = count + 1;
        }
        i = i + 1;
    }
    if count == 0 {
        return Err(PortError::MissingPort { slice: slice_name_of(s) });
    }
    if count > 1 {
        return Err(PortError::DuplicatePort { slice: slice_name_of(s) });
    }
    match first.unwrap() {
        None => Err(PortError::NoPortNumber { slice: slice_name_of(s) }),
        Some(raw) => {
            if raw < 0 || raw > 65535 {
                Err(PortError::InvalidPort { slice: slice_name_of(s), raw })
            } else if raw == 0 {
                Err(PortError::ZeroPort)
            } else {
                Ok(raw as u16)
            }
        },
    }
}

fn insert_port(r: &mut Vec<u16>, p: u16)
    ensures
        final(r)@ == sorted_insert(old(r)@, p),
{
    let mut k: usize = 0;
    while k < r.len()
        invariant
            k <= r@.len(),
            r@ == old(r)@,
            forall|j: int| 0 <= j < k ==> r@[j] != p,
        decreases r@.len() - k,
    {
        if r[k] == p {
            assert(old(r)@.contains(p));
            return;
        }
        k = k + 1;
    }
    let mut j: usize = 0;
    while j < r.len() && r[j] <= p
        invariant
            j <= r@.len(),
            r@ == old(r)@,
            port_pos(r@, p, 0) == port_pos(r@, p, j as int),
        decreases r@.len() - j,
    {
        j = j + 1;
    }
    r.insert(j, p);
}

/// Resolves the replica-sync port from the peer Service's EndpointSlices:
/// every slice must expose exactly one port named `replica-agg`, with a
/// nonzero `u16` number, and all slices must agree.
pub fn replica_sync_port(slices: &[PeerSlice]) -> (r: Result<u16, PortError>)
    ensures
        match r {
            Ok(p) => sync_port(slices@) == Ok::<u16, PortFault>(p),
            Err(e) => sync_port(slices@) == Err::<u16, PortFault>(fault_of(e)),
        },
{
    let mut resolved: Vec<u16> = Vec::new();
    let mut i: usize = 0;
    while i < slices.len()
        invariant
            i <= slices@.len(),
            resolve_upto(slices@, i as int) == Ok::<Seq<u16>, PortFault>(resolved@),
        decreases slices@.len() - i,
    {
        match slice_sync_port_of(&slices[i]) {
            Err(e) => {
                proof {
                    lemma_resolve_fails_on(slices@, i + 1, slices@.len() as int);
                }
                return Err(e);
            },
            Ok(p) => {
                insert_port(&mut resolved, p);
            },
        }
        i = i + 1;
    }
    if slices.len() == 0 {
        return Err(PortError::NoSlices);
    }
    if resolved.len() != 1 {
        return Err(PortError::Inconsistent { ports: resolved });
    }
    Ok(resolved[0])
}

proof fn lemma_resolve_fails_on(slices: Seq<PeerSlice>, i: int, n: int)
    requires
        1 <= i <= n,
        resolve_upto(slices, i) is Err,
    ensures
        resolve_upto(slices, n) == resolve_upto(slices, i),
    decreases n - i,
{
    if i < n {
        lemma_resolve_fails_on(slices, i, n - 1);
    }
}

/// A signed decimal.
pub open spec fn signed_decimal(x: i32) -> Seq<char> {
    if x < 0 {
        seq!['-'] + decimal((-x) as nat)
    } else {
        decimal(x as nat)
    }
}

/// The first `n` ports, separated by `", "`.
pub open spec fn joined_ports(r: Seq<u16>, n: int) -> Seq<char>
    decreases n,
{
    if n <= 0 {
        Seq::empty()
    } else if n == 1 {
        decimal(r[0] as nat)
    } else {
        joined_ports(r, n - 1) + seq![',', ' '] + decimal(r[n - 1] as nat)
    }
}

pub open spec fn quoted_agg() -> Seq<char> {
    seq!['"'] + agg_name() + seq!['"']
}

/// The text of a port fault.
pub open spec fn port_message(f: PortFault) -> Seq<char> {
    match f {
        PortFault::NoSlices => "peer Service has no EndpointSlices"@,
        PortFault::MissingPort(s) => "EndpointSlice "@ + s + " does not expose named port "@ + quoted_agg(),
        PortFault::DuplicatePort(s) => "EndpointSlice "@ + s + " exposes named port "@ + quoted_agg()
            + " more than once"@,
        PortFault::NoPortNumber(s) => "EndpointSlice "@ + s + " named port "@ + quoted_agg()
            + " has no port number"@,
        PortFault::InvalidPort(s, raw) => "EndpointSlice "@ + s + " named port "@ + quoted_agg()
            + " has invalid port "@ + signed_decimal(raw),
        PortFault::ZeroPort => "named port "@ + quoted_agg() + " must be greater than zero"@,
        PortFault::Inconsistent(r) => "named port "@ + quoted_agg() + " resolves to inconsistent ports {"@
            + joined_ports(r, r.len() as int) + seq!['}'],
    }
}

fn push_quoted_agg(s: &mut String)
    ensures
        final(s)@ == old(s)@ + quoted_agg(),
{
    proof {
        reveal_strlit("replica-agg");
    }
    push_char(s, '"');
    push_str(s, REPLICA_AGG_PORT_NAME);
    push_char(s, '"');
    assert(s@ =~= old(s)@ + quoted_agg());
}

impl PortError {
    /// The error's text.
    pub fn message(&self) -> (r: String)
        ensures
            r@ == port_message(fault_of(*self)),
    {
        let mut m = String::new();
        match self {
            PortError::NoSlices => {
                push_str(&mut m, "peer Service has no EndpointSlices");
            },
            PortError::MissingPort { slice } => {
                push_str(&mut m, "EndpointSlice ");
                push_str(&mut m, slice.as_str());
                push_str(&mut m, " does not expose named port ");
                push_quoted_agg(&mut m);
            },
            PortError::DuplicatePort { slice } => {
                push_str(&mut m, "EndpointSlice ");
                push_str(&mut m, slice.as_str());
                push_str(&mut m, " exposes named port ");
                push_quoted_agg(&mut m);
                push_str(&mut m, " more than once");
            },
            PortError::NoPortNumber { slice } => {
                push_str(&mut m, "EndpointSlice ");
                push_str(&mut m, slice.as_str());
                push_str(&mut m, " named port ");
                push_quoted_agg(&mut m);
                push_str(&mut m, " has no port number");
            },
            PortError::InvalidPort { slice, raw } => {
                push_str(&mut m, "EndpointSlice ");
                push_str(&mut m, slice.as_str());
                push_str(&mut m, " named port ");
                push_quoted_agg(&mut m);
                push_str(&mut m, " has invalid port ");
                let ghost before = m@;
                if *raw < 0 {
                    push_char(&mut m, '-');
                    let magnitude: u64 = (-(*raw as i64)) as u64;
                    push_decimal(&mut m, magnitude);
                    assert(m@ =~= before + signed_decimal(*raw));
                } else {
                    push_decimal(&mut m, *raw as u64);
                    assert(m@ =~= before + signed_decimal(*raw));
                }
            },
            PortError::ZeroPort => {
                push_str(&mut m, "named port ");
                push_quoted_agg(&mut m);
                push_str(&mut m, " must be greater than zero");
            },
            PortError::Inconsistent { ports } => {
                push_str(&mut m, "named port ");
                push_quoted_agg(&mut m);
                push_str(&mut m, " resolves to inconsistent ports {");
                let ghost before = m@;
                let mut k: usize = 0;
                while k < ports.len()
                    invariant
                        k <= ports@.len(),
                        m@ == before + joined_ports(ports@, k as int),
                    decreases ports@.len() - k,
                {
                    if k > 0 {
                        push_str(&mut m, ", ");
                        proof {
                            reveal_strlit(", ");
                        }
                    }
                    push_decimal(&mut m, ports[k] as u64);
                    proof {
                        if k == 0 {
                            assert(m@ =~= before + joined_ports(ports@, k + 1));
                        } else {
                            assert(", "@ =~= seq![',', ' ']);
                            assert(m@ =~= before + joined_ports(ports@, k + 1));
                        }
                    }
                    k = k + 1;
                }
                push_char(&mut m, '}');
            },
        }
        assert(m@ =~= port_message(fault_of(*self)));
        m
    }
}

} // verus!
