//! Reading the GAIE `InferencePool` (`inference.networking.k8s.io/v1`) spec:
//! the pod selector from `spec.selector.matchLabels` and the single target
//! port from `spec.targetPorts[].number`.

use vstd::prelude::*;
use super::pods::PoolState;

verus! {

/// A JSON number, as far as the pool spec needs it.
#[derive(Clone, Debug)]
pub enum JsonNumber {
    /// A non-negative integer.
    PosInt(u64),
    /// A negative integer.
    NegInt(i64),
    /// Any other number.
    Float,
}

/// A JSON value. Object members keep their order.
pub enum JsonValue {
    Null,
    Bool(bool),
    Number(JsonNumber),
    String(String),
    Array(Vec<JsonValue>),
    Object(Vec<(String, JsonValue)>),
}

/// The member `k` of an object, from position `i` on (the first one).
pub open spec fn member_from(m: Seq<(String, JsonValue)>, k: Seq<char>, i: int) -> Option<JsonValue>
    decreases m.len() - i,
{
    if i < 0 || i >= m.len() {
        None
    } else if m[i].0@ == k {
        Some(m[i].1)
    } else {
        member_from(m, k, i + 1)
    }
}

/// `v.get(k)`: the member `k` of an object; `None` for other values.
pub open spec fn json_get(v: JsonValue, k: Seq<char>) -> Option<JsonValue> {
    match v {
        JsonValue::Object(m) => member_from(m@, k, 0),
        _ => None,
    }
}

fn member<'a>(m: &'a Vec<(String, JsonValue)>, k: &str) -> (r: Option<&'a JsonValue>)
    ensures
        match r {
            Some(x) => member_from(m@, k@, 0) == Some(*x),
            None => member_from(m@, k@, 0) is None,
        },
{
    let mut i: usize = 0;
    while i < m.len()
        invariant
            i <= m@.len(),
            member_from(m@, k@, 0) == member_from(m@, k@, i as int),
        decreases m@.len() - i,
    {
        if crate::text::str_equal(m[i].0.as_str(), k) {
            return Some(&m[i].1);
        }
        i = i + 1;
    }
    None
}

/// The member `k` of an object value.
pub fn get<'a>(v: &'a JsonValue, k: &str) -> (r: Option<&'a JsonValue>)
    ensures
        match r {
            Some(x) => json_get(*v, k@) == Some(*x),
            None => json_get(*v, k@) is None,
        },
{
    match v {
        JsonValue::Object(m) => member(m, k),
        _ => None,
    }
}

/// The string members among the first `n` members, in order.
pub open spec fn string_members_upto(m: Seq<(String, JsonValue)>, n: int) -> Seq<(Seq<char>, Seq<char>)>
    decreases n,
{
    if n <= 0 {
        Seq::empty()
    } else {
        let r = string_members_upto(m, n - 1);
        match m[n - 1].1 {
            JsonValue::String(s) => r.push((m[n - 1].0@, s@)),
            _ => r,
        }
    }
}

pub open spec fn spec_key() -> Seq<char> {
    seq!['s', 'p', 'e', 'c']
}

pub open spec fn selector_key() -> Seq<char> {
    seq!['s', 'e', 'l', 'e', 'c', 't', 'o', 'r']
}

pub open spec fn match_labels_key() -> Seq<char> {
    seq!['m', 'a', 't', 'c', 'h', 'L', 'a', 'b', 'e', 'l', 's']
}

pub open spec fn target_ports_key() -> Seq<char> {
    seq!['t', 'a', 'r', 'g', 'e', 't', 'P', 'o', 'r', 't', 's']
}

pub open spec fn number_key() -> Seq<char> {
    seq!['n', 'u', 'm', 'b', 'e', 'r']
}

/// A pool's selector and target port, as plain values.
pub struct PoolView {
    pub match_labels: Seq<(Seq<char>, Seq<char>)>,
    pub target_port: u16,
}

pub open spec fn pool_view(p: PoolState) -> PoolView {
    PoolView {
        match_labels: p.match_labels@.map_values(|e: (String, String)| (e.0@, e.1@)),
        target_port: p.target_port,
    }
}

/// The target port of `spec.targetPorts`: exactly one entry whose `number`
/// is a nonzero `u16`.
pub open spec fn single_target_port(spec: JsonValue) -> Option<u16> {
    match json_get(spec, target_ports_key()) {
        Some(JsonValue::Array(tp)) => if tp@.len() != 1 {
            None
        } else {
            match json_get(tp@[0], number_key()) {
                Some(JsonValue::Number(JsonNumber::PosInt(n))) => if n > 65535 || n == 0 {
                    None
                } else {
                    Some(n as u16)
                },
                _ => None,
            }
        },
        _ => None,
    }
}

/// The pool state of an `InferencePool` object: `None` when the selector is
/// missing or has no string labels (it would match every pod), or when the
/// pool does not declare exactly one valid target port.
pub open spec fn pool_state_of(data: JsonValue) -> Option<PoolView> {
    match json_get(data, spec_key()) {
        None => None,
        Some(spec) => match json_get(spec, selector_key()) {
            None => None,
            Some(sel) => match json_get(sel, match_labels_key()) {
                Some(JsonValue::Object(m)) => {
                    let labels = string_members_upto(m@, m@.len() as int);
                    if labels.len() == 0 {
                        None
                    } else {
                        match single_target_port(spec) {
                            None => None,
                            Some(port) => Some(PoolView { match_labels: labels, target_port: port }),
                        }
                    }
                },
                _ => None,
            },
        },
    }
}

fn target_port_of(spec: &JsonValue) -> (r: Option<u16>)
    ensures
        r == single_target_port(*spec),
{
    proof {
        reveal_strlit("targetPorts");
        reveal_strlit("number");
        assert("targetPorts"@ =~= target_ports_key());
        assert("number"@ =~= number_key());
    }
    match get(spec, "targetPorts") {
        Some(JsonValue::Array(tp)) => {
            if tp.len() != 1 {
                return None;
            }
            match get(&tp[0], "number") {
                Some(JsonValue::Number(JsonNumber::PosInt(n))) => {
                    if *n > 65535 || *n == 0 {
                        None
                    } else {
                        Some(*n as u16)
                    }
                },
                _ => None,
            }
        },
        _ => None,
    }
}

/// Extracts the pool state from an `InferencePool` object.
pub fn parse_pool_state(data: &JsonValue) -> (r: Option<PoolState>)
    ensures
        match r {
            Some(p) => pool_state_of(*data) == Some(pool_view(p)),
            None => pool_state_of(*data) is None,
        },
{
    proof {
        reveal_strlit("spec");
        reveal_strlit("selector");
        reveal_strlit("matchLabels");
        assert("spec"@ =~= spec_key());
        assert("selector"@ =~= selector_key());
        assert("matchLabels"@ =~= match_labels_key());
    }
    let spec = match get(data, "spec") {
        None => {
            return None;
        },
        Some(s) => s,
    };
    let sel = match get(spec, "selector") {
        None => {
            return None;
        },
        Some(s) => s,
    };
    let m = match get(sel, "matchLabels") {
        Some(JsonValue::Object(m)) => m,
        _ => {
            return None;
        },
    };
    let mut labels: Vec<(String, String)> = Vec::new();
    let mut i: usize = 0;
    while i < m.len()
        invariant
            i <= m@.len(),
            labels@.map_values(|e: (String, String)| (e.0@, e.1@)) == string_members_upto(m@, i as int),
        decreases m@.len() - i,
    {
        match &m[i].1 {
            JsonValue::String(v) => {
                let ghost l0 = labels@;
                labels.push((m[i].0.clone(), v.clone()));
                assert(labels@.map_values(|e: (String, String)| (e.0@, e.1@)) =~= l0.map_values(
                    |e: (String, String)| (e.0@, e.1@),
                ).push((m@[i as int].0@, v@)));
            },
            _ => {},
        }
        i = i + 1;
    }
    if labels.len() == 0 {
        return None;
    }
    match target_port_of(spec) {
        None => None,
        Some(port) => Some(PoolState { match_labels: labels, target_port: port }),
    }
}

impl PoolState {
    /// The value of selector label `k`, if the selector has it.
    pub fn label(&self, k: &str) -> (r: Option<String>)
        ensures
            match r {
                Some(v) => exists|i: int|
                    0 <= i < self.match_labels@.len() && #[trigger] self.match_labels@[i].0@ == k@
                        && self.match_labels@[i].1@ == v@,
                None => forall|i: int| 0 <= i < self.match_labels@.len() ==> #[trigger] self.match_labels@[i].0@ != k@,
            },
    {
        let mut i: usize = 0;
        while i < self.match_labels.len()
            invariant
                i <= self.match_labels@.len(),
                forall|j: int| 0 <= j < i ==> #[trigger] self.match_labels@[j].0@ != k@,
            decreases self.match_labels@.len() - i,
        {
            if crate::text::str_equal(self.match_labels[i].0.as_str(), k) {
                return Some(self.match_labels[i].1.clone());
            }
            i = i + 1;
        }
        None
    }
}

} // verus!
