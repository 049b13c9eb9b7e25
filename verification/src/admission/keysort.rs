//! Stable sorting of keyed items by a three-part key, compared
//! lexicographically. Equal keys keep their input order.

use vstd::prelude::*;

verus! {

/// A sort key; the first component is the most significant.
pub type SortKey = (u64, u64, u64);

/// `a` sorts after `b`.
pub open spec fn key_gt(a: SortKey, b: SortKey) -> bool {
    a.0 > b.0 || (a.0 == b.0 && (a.1 > b.1 || (a.1 == b.1 && a.2 > b.2)))
}

/// Where an item with key `k` goes in the sorted `r`: before the first entry,
/// from position `i` on, whose key is greater (at the end when there is none).
pub open spec fn insert_pos_from<T>(r: Seq<(SortKey, T)>, k: SortKey, i: int) -> int
    decreases r.len() - i,
{
    if i < 0 || i >= r.len() {
        r.len() as int
    } else if key_gt(r[i].0, k) {
        i
    } else {
        insert_pos_from(r, k, i + 1)
    }
}

/// The first `n` items of `s`, sorted: each item goes after every earlier
/// item whose key is not greater.
pub open spec fn key_sorted_upto<T>(s: Seq<(SortKey, T)>, n: int) -> Seq<(SortKey, T)>
    decreases n,
{
    if n <= 0 {
        Seq::empty()
    } else {
        let r = key_sorted_upto(s, n - 1);
        r.insert(insert_pos_from(r, s[n - 1].0, 0), s[n - 1])
    }
}

/// `s` stably sorted by key.
pub open spec fn key_sorted<T>(s: Seq<(SortKey, T)>) -> Seq<(SortKey, T)> {
    key_sorted_upto(s, s.len() as int)
}

pub proof fn lemma_insert_pos_bounds<T>(r: Seq<(SortKey, T)>, k: SortKey, i: int)
    requires
        0 <= i <= r.len(),
    ensures
        i <= insert_pos_from(r, k, i) <= r.len(),
    decreases r.len() - i,
{
    if i < r.len() && !key_gt(r[i].0, k) {
        lemma_insert_pos_bounds(r, k, i + 1);
    }
}

pub proof fn lemma_sorted_len<T>(s: Seq<(SortKey, T)>, n: int)
    requires
        0 <= n <= s.len(),
    ensures
        key_sorted_upto(s, n).len() == n,
    decreases n,
{
    if n > 0 {
        lemma_sorted_len(s, n - 1);
        lemma_insert_pos_bounds(key_sorted_upto(s, n - 1), s[n - 1].0, 0);
    }
}

/// Every sorted item is one of the first `n` input items.
pub proof fn lemma_sorted_members<T>(s: Seq<(SortKey, T)>, n: int)
    requires
        0 <= n <= s.len(),
    ensures
        forall|j: int|
            0 <= j < key_sorted_upto(s, n).len() ==> exists|i: int|
                0 <= i < n && #[trigger] key_sorted_upto(s, n)[j] == s[i],
    decreases n,
{
    if n > 0 {
        lemma_sorted_members(s, n - 1);
        let r = key_sorted_upto(s, n - 1);
        let p = insert_pos_from(r, s[n - 1].0, 0);
        lemma_insert_pos_bounds(r, s[n - 1].0, 0);
        let t = key_sorted_upto(s, n);
        assert forall|j: int| 0 <= j < t.len() implies exists|i: int| 0 <= i < n && #[trigger] t[j] == s[i] by {
            if j < p {
                assert(t[j] == r[j]);
                let i = choose|i: int| 0 <= i < n - 1 && r[j] == s[i];
                assert(t[j] == s[i]);
            } else if j == p {
                assert(t[j] == s[n - 1]);
            } else {
                assert(t[j] == r[j - 1]);
                let i = choose|i: int| 0 <= i < n - 1 && r[j - 1] == s[i];
                assert(t[j] == s[i]);
            }
        }
    }
}

/// Every one of the first `n` input items is among the sorted items.
pub proof fn lemma_sorted_contains<T>(s: Seq<(SortKey, T)>, n: int)
    requires
        0 <= n <= s.len(),
    ensures
        forall|i: int| 0 <= i < n ==> key_sorted_upto(s, n).contains(#[trigger] s[i]),
    decreases n,
{
    if n > 0 {
        lemma_sorted_contains(s, n - 1);
        let r = key_sorted_upto(s, n - 1);
        let p = insert_pos_from(r, s[n - 1].0, 0);
        lemma_insert_pos_bounds(r, s[n - 1].0, 0);
        let t = key_sorted_upto(s, n);
        assert forall|i: int| 0 <= i < n implies t.contains(#[trigger] s[i]) by {
            if i == n - 1 {
                assert(t[p] == s[n - 1]);
            } else {
                assert(r.contains(s[i]));
                let j = choose|j: int| 0 <= j < r.len() && r[j] == s[i];
                if j < p {
                    assert(t[j] == r[j]);
                } else {
                    assert(t[j + 1] == r[j]);
                }
            }
        }
    }
}

/// Before the insert position every key is at most `k`; the key at the
/// position, if any, is greater.
pub proof fn lemma_insert_pos_order<T>(r: Seq<(SortKey, T)>, k: SortKey, i: int)
    requires
        0 <= i <= r.len(),
    ensures
        forall|j: int| i <= j < insert_pos_from(r, k, i) ==> !key_gt(#[trigger] r[j].0, k),
        insert_pos_from(r, k, i) < r.len() ==> key_gt(r[insert_pos_from(r, k, i)].0, k),
    decreases r.len() - i,
{
    if i < r.len() && !key_gt(r[i].0, k) {
        lemma_insert_pos_order(r, k, i + 1);
    }
}

/// The sorted items come in key order.
pub proof fn lemma_sorted_ordered<T>(s: Seq<(SortKey, T)>, n: int)
    requires
        0 <= n <= s.len(),
    ensures
        forall|i: int, j: int|
            0 <= i < j < key_sorted_upto(s, n).len() ==> !key_gt(
                #[trigger] key_sorted_upto(s, n)[i].0,
                #[trigger] key_sorted_upto(s, n)[j].0,
            ),
    decreases n,
{
    if n > 0 {
        lemma_sorted_ordered(s, n - 1);
        let r = key_sorted_upto(s, n - 1);
        let k = s[n - 1].0;
        let p = insert_pos_from(r, k, 0);
        lemma_insert_pos_bounds(r, k, 0);
        lemma_insert_pos_order(r, k, 0);
        let t = key_sorted_upto(s, n);
        assert(t == r.insert(p, s[n - 1]));
        assert forall|i: int, j: int| 0 <= i < j < t.len() implies !key_gt(#[trigger] t[i].0, #[trigger] t[j].0) by {
            if j < p {
                assert(t[i] == r[i] && t[j] == r[j]);
            } else if j == p {
                assert(t[i] == r[i]);
            } else if i < p {
                assert(t[i] == r[i] && t[j] == r[j - 1]);
            } else if i == p {
                assert(t[j] == r[j - 1]);
                assert(key_gt(r[p].0, k));
                if j - 1 > p {
                    assert(!key_gt(r[p].0, r[j - 1].0));
                }
            } else {
                assert(t[i] == r[i - 1] && t[j] == r[j - 1]);
            }
        }
    }
}

/// Whether key `a` sorts after key `b`.
pub fn key_greater(a: SortKey, b: SortKey) -> (r: bool)
    ensures
        r == key_gt(a, b),
{
    a.0 > b.0 || (a.0 == b.0 && (a.1 > b.1 || (a.1 == b.1 && a.2 > b.2)))
}

fn insert_position<T>(r: &Vec<(SortKey, T)>, k: SortKey) -> (p: usize)
    ensures
        p == insert_pos_from(r@, k, 0),
{
    let mut j: usize = 0;
    while j < r.len()
        invariant
            j <= r@.len(),
            insert_pos_from(r@, k, 0) == insert_pos_from(r@, k, j as int),
        decreases r@.len() - j,
    {
        if key_greater(r[j].0, k) {
            return j;
        }
        j = j + 1;
    }
    j
}

/// Sorts `v` stably by key.
pub fn key_sort<T>(v: Vec<(SortKey, T)>) -> (r: Vec<(SortKey, T)>)
    ensures
        r@ == key_sorted(v@),
{
    let ghost s = v@;
    let mut input = v;
    let mut r: Vec<(SortKey, T)> = Vec::new();
    let n = input.len();
    let mut i: usize = 0;
    while i < n
        invariant
            n == s.len(),
            i <= n,
            input@ == s.skip(i as int),
            r@ == key_sorted_upto(s, i as int),
        decreases n - i,
    {
        proof {
            lemma_sorted_len(s, i as int);
        }
        let x = input.remove(0);
        assert(x == s[i as int]);
        let j = insert_position(&r, x.0);
        proof {
            lemma_insert_pos_bounds(r@, x.0, 0);
        }
        r.insert(j, x);
        assert(input@ =~= s.skip(i + 1));
        i = i + 1;
    }
    r
}

} // verus!
