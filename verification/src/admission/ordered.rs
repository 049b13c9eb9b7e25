//! The insertion-ordered collections of the policy, kept in `indexmap`'s
//! `IndexMap` and `IndexSet`. Each function here makes one call into
//! `indexmap`; its contract is what that crate's source shows the call does to
//! the entries in insertion order.

use vstd::prelude::*;
use indexmap::{IndexMap, IndexSet};
use super::program::Program;

verus! {

#[verifier::external_type_specification]
#[verifier::external_body]
#[verifier::reject_recursive_types(K)]
#[verifier::reject_recursive_types(V)]
#[verifier::reject_recursive_types(S)]
pub struct ExIndexMap<K, V, S>(IndexMap<K, V, S>);

#[verifier::external_type_specification]
#[verifier::external_body]
#[verifier::reject_recursive_types(T)]
#[verifier::reject_recursive_types(S)]
pub struct ExIndexSet<T, S>(IndexSet<T, S>);

/// The session programs held by a map, in insertion order.
pub uninterp spec fn program_entries(m: IndexMap<String, Program>) -> Seq<(Seq<char>, Program)>;

/// The ids held by a set, in insertion order.
pub uninterp spec fn id_entries(s: IndexSet<u64>) -> Seq<u64>;

pub open spec fn keys_distinct(e: Seq<(Seq<char>, Program)>) -> bool {
    forall|i: int, j: int| 0 <= i < e.len() && 0 <= j < e.len() && i != j ==> e[i].0 != e[j].0
}

pub open spec fn has_key(e: Seq<(Seq<char>, Program)>, k: Seq<char>) -> bool {
    exists|i: int| 0 <= i < e.len() && e[i].0 == k
}

/// The position of key `k`, if present.
pub open spec fn key_index(e: Seq<(Seq<char>, Program)>, k: Seq<char>) -> int {
    choose|i: int| 0 <= i < e.len() && e[i].0 == k
}

pub open spec fn ids_distinct(s: Seq<u64>) -> bool {
    forall|i: int, j: int| 0 <= i < s.len() && 0 <= j < s.len() && i != j ==> s[i] != s[j]
}

/// `IndexMap::new`: an empty map.
#[verifier::external_body]
pub(crate) fn program_map_new() -> (m: IndexMap<String, Program>)
    ensures
        program_entries(m) == Seq::<(Seq<char>, Program)>::empty(),
{
    IndexMap::new()
}

/// `IndexMap::len`: the number of entries.
#[verifier::external_body]
pub(crate) fn program_map_len(m: &IndexMap<String, Program>) -> (n: usize)
    ensures
        n == program_entries(*m).len(),
{
    m.len()
}

/// `IndexMap::get_index`: the entry at position `i`, if any.
#[verifier::external_body]
pub(crate) fn program_map_get_index(m: &IndexMap<String, Program>, i: usize) -> (r: Option<(String, Program)>)
    ensures
        i < program_entries(*m).len() ==> r is Some && r.unwrap().0@ == program_entries(*m)[i as int].0
            && r.unwrap().1 == program_entries(*m)[i as int].1,
        i >= program_entries(*m).len() ==> r is None,
{
    match m.get_index(i) {
        Some((k, v)) => Some((k.clone(), *v)),
        None => None,
    }
}

/// `IndexMap::get_index_of`: the position of key `k`, if present.
#[verifier::external_body]
pub(crate) fn program_map_index_of(m: &IndexMap<String, Program>, k: &str) -> (r: Option<usize>)
    ensures
        match r {
            Some(i) => i < program_entries(*m).len() && program_entries(*m)[i as int].0 == k@,
            None => !has_key(program_entries(*m), k@),
        },
{
    m.get_index_of(k)
}

/// `IndexMap::insert`: an existing key keeps its position and takes the new
/// value; a new key is appended. Keys stay distinct.
#[verifier::external_body]
pub(crate) fn program_map_insert(m: &mut IndexMap<String, Program>, k: String, v: Program)
    ensures
        has_key(program_entries(*old(m)), k@) ==> program_entries(*final(m)) == program_entries(
            *old(m),
        ).update(
            key_index(program_entries(*old(m)), k@),
            (k@, v),
        ),
        !has_key(program_entries(*old(m)), k@) ==> program_entries(*final(m)) == program_entries(
            *old(m),
        ).push((k@, v)),
        keys_distinct(program_entries(*final(m))),
{
    m.insert(k, v);
}

/// `IndexMap::shift_remove`: removes key `k`, keeping the order of the rest.
#[verifier::external_body]
pub(crate) fn program_map_shift_remove(m: &mut IndexMap<String, Program>, k: &str) -> (r: Option<Program>)
    ensures
        has_key(program_entries(*old(m)), k@) ==> r == Some(
            program_entries(*old(m))[key_index(program_entries(*old(m)), k@)].1,
        ) && program_entries(*final(m)) == program_entries(*old(m)).remove(
            key_index(program_entries(*old(m)), k@),
        ),
        !has_key(program_entries(*old(m)), k@) ==> r is None && program_entries(*final(m))
            == program_entries(*old(m)),
        keys_distinct(program_entries(*final(m))),
{
    m.shift_remove(k)
}

/// `IndexMap::shift_remove_index`: removes the entry at position `i`,
/// keeping the order of the rest.
#[verifier::external_body]
pub(crate) fn program_map_shift_remove_index(m: &mut IndexMap<String, Program>, i: usize)
    requires
        i < program_entries(*old(m)).len(),
    ensures
        program_entries(*final(m)) == program_entries(*old(m)).remove(i as int),
        keys_distinct(program_entries(*final(m))),
{
    m.shift_remove_index(i);
}

/// `IndexSet::new`: an empty set.
#[verifier::external_body]
pub(crate) fn id_set_new() -> (s: IndexSet<u64>)
    ensures
        id_entries(s) == Seq::<u64>::empty(),
{
    IndexSet::new()
}

/// `IndexSet::insert`: appends `x` unless it is already present.
#[verifier::external_body]
pub(crate) fn id_set_insert(s: &mut IndexSet<u64>, x: u64) -> (added: bool)
    ensures
        added == !id_entries(*old(s)).contains(x),
        added ==> id_entries(*final(s)) == id_entries(*old(s)).push(x),
        !added ==> id_entries(*final(s)) == id_entries(*old(s)),
        ids_distinct(id_entries(*final(s))),
{
    s.insert(x)
}

/// `IndexSet::shift_remove`: removes `x`, keeping the order of the rest.
#[verifier::external_body]
pub(crate) fn id_set_shift_remove(s: &mut IndexSet<u64>, x: u64) -> (removed: bool)
    ensures
        removed == id_entries(*old(s)).contains(x),
        removed ==> id_entries(*final(s)) == id_entries(*old(s)).remove(
            choose|i: int| 0 <= i < id_entries(*old(s)).len() && id_entries(*old(s))[i] == x,
        ),
        !removed ==> id_entries(*final(s)) == id_entries(*old(s)),
        ids_distinct(id_entries(*final(s))),
{
    s.shift_remove(&x)
}

/// `IndexSet::shift_remove_index`: removes the entry at position `i`, if any.
#[verifier::external_body]
pub(crate) fn id_set_shift_remove_index(s: &mut IndexSet<u64>, i: usize) -> (r: Option<u64>)
    ensures
        i < id_entries(*old(s)).len() ==> r == Some(id_entries(*old(s))[i as int])
            && id_entries(*final(s)) == id_entries(*old(s)).remove(i as int),
        i >= id_entries(*old(s)).len() ==> r is None && id_entries(*final(s)) == id_entries(
            *old(s),
        ),
        ids_distinct(id_entries(*final(s))),
{
    s.shift_remove_index(i)
}

/// `IndexSet::get_index`: the id at position `i`, if any.
#[verifier::external_body]
pub(crate) fn id_set_get_index(s: &IndexSet<u64>, i: usize) -> (r: Option<u64>)
    ensures
        i < id_entries(*s).len() ==> r == Some(id_entries(*s)[i as int]),
        i >= id_entries(*s).len() ==> r is None,
{
    s.get_index(i).copied()
}

} // verus!
