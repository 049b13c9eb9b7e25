//! Text helpers shared by the gateway, frontend and mocker modules: ASCII
//! case-insensitive comparison, whitespace trimming, prefixes and decimal
//! formatting, each against a plain statement of what it computes.

use vstd::prelude::*;

verus! {

/// A string holds an IPv6 literal when it contains a colon.
pub open spec fn has_colon(s: Seq<char>) -> bool {
    exists|i: int| 0 <= i < s.len() && s[i] == ':'
}

/// Whether `ip` is an IPv6 literal (it contains `:`).
pub fn is_ipv6(ip: &str) -> (r: bool)
    ensures
        r == has_colon(ip@),
{
    let n = ip.unicode_len();
    let mut i: usize = 0;
    while i < n
        invariant
            n == ip@.len(),
            i <= n,
            forall|j: int| 0 <= j < i ==> ip@[j] != ':',
        decreases n - i,
    {
        if ip.get_char(i) == ':' {
            return true;
        }
        i = i + 1;
    }
    false
}

/// `String::push`: appends one character.
#[verifier::external_body]
pub(crate) fn push_char(s: &mut String, c: char)
    ensures
        final(s)@ == old(s)@.push(c),
{
    s.push(c);
}

/// A character folded to lower case when it is an ASCII capital.
pub open spec fn ascii_fold(c: char) -> u32 {
    if 'A' <= c && c <= 'Z' {
        (c as u32 + 32) as u32
    } else {
        c as u32
    }
}

/// `a` and `b` are equal ignoring ASCII case.
pub open spec fn eq_ignore_ascii_case(a: Seq<char>, b: Seq<char>) -> bool {
    a.len() == b.len() && forall|i: int| 0 <= i < a.len() ==> ascii_fold(#[trigger] a[i]) == ascii_fold(b[i])
}

fn fold_char(c: char) -> (r: u32)
    ensures
        r == ascii_fold(c),
{
    if 'A' <= c && c <= 'Z' {
        (c as u32) + 32
    } else {
        c as u32
    }
}

/// Whether `a` equals `b` ignoring ASCII case.
pub fn ascii_eq_ignore_case(a: &str, b: &str) -> (r: bool)
    ensures
        r == eq_ignore_ascii_case(a@, b@),
{
    let n = a.unicode_len();
    if n != b.unicode_len() {
        return false;
    }
    let mut i: usize = 0;
    while i < n
        invariant
            n == a@.len(),
            n == b@.len(),
            i <= n,
            forall|j: int| 0 <= j < i ==> ascii_fold(#[trigger] a@[j]) == ascii_fold(b@[j]),
        decreases n - i,
    {
        if fold_char(a.get_char(i)) != fold_char(b.get_char(i)) {
            return false;
        }
        i = i + 1;
    }
    true
}

/// Unicode `White_Space`, the characters `str::trim` strips.
pub open spec fn is_white(c: char) -> bool {
    let n = c as u32;
    (0x09 <= n && n <= 0x0D) || n == 0x20 || n == 0x85 || n == 0xA0 || n == 0x1680 || (0x2000 <= n && n
        <= 0x200A) || n == 0x2028 || n == 0x2029 || n == 0x202F || n == 0x205F || n == 0x3000
}

pub fn is_white_char(c: char) -> (r: bool)
    ensures
        r == is_white(c),
{
    let n = c as u32;
    (0x09 <= n && n <= 0x0D) || n == 0x20 || n == 0x85 || n == 0xA0 || n == 0x1680 || (0x2000 <= n && n
        <= 0x200A) || n == 0x2028 || n == 0x2029 || n == 0x202F || n == 0x205F || n == 0x3000
}

/// The first position, from `i` on, that is not whitespace (or the length).
pub open spec fn trim_start_from(s: Seq<char>, i: int) -> int
    decreases s.len() - i,
{
    if i < 0 || i >= s.len() {
        s.len() as int
    } else if is_white(s[i]) {
        trim_start_from(s, i + 1)
    } else {
        i
    }
}

/// One past the last position before `j`, down to `lo`, that is not
/// whitespace (or `lo`).
pub open spec fn trim_end_from(s: Seq<char>, j: int, lo: int) -> int
    decreases j - lo,
{
    if j <= lo {
        lo
    } else if is_white(s[j - 1]) {
        trim_end_from(s, j - 1, lo)
    } else {
        j
    }
}

/// `s` without leading and trailing whitespace.
pub open spec fn trimmed(s: Seq<char>) -> Seq<char> {
    let a = trim_start_from(s, 0);
    s.subrange(a, trim_end_from(s, s.len() as int, a))
}

proof fn lemma_trim_start_bounds(s: Seq<char>, i: int)
    requires
        0 <= i <= s.len(),
    ensures
        i <= trim_start_from(s, i) <= s.len(),
    decreases s.len() - i,
{
    if i < s.len() && is_white(s[i]) {
        lemma_trim_start_bounds(s, i + 1);
    }
}

proof fn lemma_trim_end_bounds(s: Seq<char>, j: int, lo: int)
    requires
        lo <= j,
    ensures
        lo <= trim_end_from(s, j, lo) <= j,
    decreases j - lo,
{
    if j > lo && is_white(s[j - 1]) {
        lemma_trim_end_bounds(s, j - 1, lo);
    }
}

/// `s` without leading and trailing whitespace (`str::trim`).
pub fn trim(s: &str) -> (r: String)
    ensures
        r@ == trimmed(s@),
{
    let n = s.unicode_len();
    let mut a: usize = 0;
    while a < n && is_white_char(s.get_char(a))
        invariant
            n == s@.len(),
            a <= n,
            trim_start_from(s@, 0) == trim_start_from(s@, a as int),
        decreases n - a,
    {
        a = a + 1;
    }
    let mut b: usize = n;
    while b > a && is_white_char(s.get_char(b - 1))
        invariant
            n == s@.len(),
            a <= b <= n,
            trim_start_from(s@, 0) == a,
            trim_end_from(s@, n as int, a as int) == trim_end_from(s@, b as int, a as int),
        decreases b - a,
    {
        b = b - 1;
    }
    let sub = s.substring_char(a, b);
    String::from_str(sub)
}

/// `s` begins with `p`.
pub open spec fn has_prefix(s: Seq<char>, p: Seq<char>) -> bool {
    p.len() <= s.len() && s.subrange(0, p.len() as int) == p
}

/// Whether `s` begins with `p`.
pub fn starts_with(s: &str, p: &str) -> (r: bool)
    ensures
        r == has_prefix(s@, p@),
{
    let n = s.unicode_len();
    let m = p.unicode_len();
    if m > n {
        return false;
    }
    let mut i: usize = 0;
    while i < m
        invariant
            n == s@.len(),
            m == p@.len(),
            m <= n,
            i <= m,
            forall|j: int| 0 <= j < i ==> s@[j] == p@[j],
        decreases m - i,
    {
        if s.get_char(i) != p.get_char(i) {
            assert(s@.subrange(0, m as int)[i as int] != p@[i as int]);
            return false;
        }
        i = i + 1;
    }
    assert(s@.subrange(0, m as int) =~= p@);
    true
}

/// The character of decimal digit `d`.
pub open spec fn digit_char(d: nat) -> char {
    (48 + d) as char
}

/// The decimal notation of `n`, without leading zeros.
pub open spec fn decimal(n: nat) -> Seq<char>
    decreases n,
{
    if n < 10 {
        seq![digit_char(n)]
    } else {
        decimal(n / 10).push(digit_char(n % 10))
    }
}

fn digit_of(d: u64) -> (c: char)
    requires
        d < 10,
    ensures
        c == digit_char(d as nat),
{
    let b: u8 = 48u8 + (d as u8);
    let c = b as char;
    assert(c as u32 == b as u32);
    c
}

/// Appends the decimal notation of `n` to `s`.
pub fn push_decimal(s: &mut String, n: u64)
    ensures
        final(s)@ == old(s)@ + decimal(n as nat),
    decreases n,
{
    if n >= 10 {
        push_decimal(s, n / 10);
    }
    let c = digit_of(n % 10);
    push_char(s, c);
    if n >= 10 {
        assert(old(s)@ + decimal(n as nat) =~= old(s)@ + decimal((n / 10) as nat) + seq![c]);
    } else {
        assert(old(s)@ + decimal(n as nat) =~= old(s)@.push(c));
    }
}

/// The decimal notation of `n` (`n.to_string()`).
pub fn decimal_string(n: u64) -> (r: String)
    ensures
        r@ == decimal(n as nat),
{
    let mut s = String::new();
    push_decimal(&mut s, n);
    assert(Seq::<char>::empty() + decimal(n as nat) =~= decimal(n as nat));
    s
}

/// Appends `t` to `s`.
pub fn push_str(s: &mut String, t: &str)
    ensures
        final(s)@ == old(s)@ + t@,
{
    s.append(t);
}

/// The plain values of a list of strings.
pub open spec fn views(v: Seq<String>) -> Seq<Seq<char>> {
    v.map_values(|x: String| x@)
}

/// Lexicographic order by character code from position `i` on (the order
/// of `String`'s `Ord`, which compares UTF-8 bytes).
pub open spec fn seq_lt_from(a: Seq<char>, b: Seq<char>, i: int) -> bool
    decreases a.len() - i,
{
    if i < 0 || i >= a.len() {
        i >= 0 && i < b.len()
    } else if i >= b.len() {
        false
    } else if a[i] != b[i] {
        a[i] < b[i]
    } else {
        seq_lt_from(a, b, i + 1)
    }
}

/// `a` sorts before `b`.
pub open spec fn seq_lt(a: Seq<char>, b: Seq<char>) -> bool {
    seq_lt_from(a, b, 0)
}

/// Whether `a` sorts before `b`.
pub fn str_less(a: &str, b: &str) -> (r: bool)
    ensures
        r == seq_lt(a@, b@),
{
    let n = a.unicode_len();
    let m = b.unicode_len();
    let mut i: usize = 0;
    while i < n && i < m
        invariant
            n == a@.len(),
            m == b@.len(),
            i <= n,
            i <= m,
            seq_lt(a@, b@) == seq_lt_from(a@, b@, i as int),
        decreases n - i,
    {
        let x = a.get_char(i);
        let y = b.get_char(i);
        if x != y {
            return x < y;
        }
        i = i + 1;
    }
    i < m
}

/// Where `x` goes in the sorted `r`: before the first entry, from `j` on,
/// that sorts after it.
pub open spec fn str_insert_pos(r: Seq<Seq<char>>, x: Seq<char>, j: int) -> int
    decreases r.len() - j,
{
    if j < 0 || j >= r.len() {
        r.len() as int
    } else if seq_lt(x, r[j]) {
        j
    } else {
        str_insert_pos(r, x, j + 1)
    }
}

/// The first `n` strings of `s`, sorted (equal strings keep their order).
pub open spec fn str_sorted_upto(s: Seq<Seq<char>>, n: int) -> Seq<Seq<char>>
    decreases n,
{
    if n <= 0 {
        Seq::empty()
    } else {
        let r = str_sorted_upto(s, n - 1);
        r.insert(str_insert_pos(r, s[n - 1], 0), s[n - 1])
    }
}

pub open spec fn str_sorted(s: Seq<Seq<char>>) -> Seq<Seq<char>> {
    str_sorted_upto(s, s.len() as int)
}

proof fn lemma_str_insert_pos_bounds(r: Seq<Seq<char>>, x: Seq<char>, j: int)
    requires
        0 <= j <= r.len(),
    ensures
        j <= str_insert_pos(r, x, j) <= r.len(),
    decreases r.len() - j,
{
    if j < r.len() && !seq_lt(x, r[j]) {
        lemma_str_insert_pos_bounds(r, x, j + 1);
    }
}

proof fn lemma_str_sorted_len(s: Seq<Seq<char>>, n: int)
    requires
        0 <= n <= s.len(),
    ensures
        str_sorted_upto(s, n).len() == n,
    decreases n,
{
    if n > 0 {
        lemma_str_sorted_len(s, n - 1);
        lemma_str_insert_pos_bounds(str_sorted_upto(s, n - 1), s[n - 1], 0);
    }
}

/// Sorts strings in `String` order.
pub fn sort_strings(v: Vec<String>) -> (r: Vec<String>)
    ensures
        views(r@) == str_sorted(views(v@)),
{
    let ghost s = views(v@);
    let mut input = v;
    let mut r: Vec<String> = Vec::new();
    let n = input.len();
    let mut i: usize = 0;
    while i < n
        invariant
            n == s.len(),
            i <= n,
            views(input@) == s.skip(i as int),
            views(r@) == str_sorted_upto(s, i as int),
        decreases n - i,
    {
        proof {
            lemma_str_sorted_len(s, i as int);
        }
        let ghost in0 = input@;
        assert(views(in0).len() == in0.len());
        assert(views(in0).len() == n - i);
        assert(views(in0)[0] == in0[0]@);
        let x = input.remove(0);
        assert(s.skip(i as int)[0] == s[i as int]);
        assert(x@ == s[i as int]);
        let mut j: usize = 0;
        while j < r.len() && !str_less(x.as_str(), r[j].as_str())
            invariant
                j <= r@.len(),
                views(r@) == str_sorted_upto(s, i as int),
                str_insert_pos(views(r@), x@, 0) == str_insert_pos(views(r@), x@, j as int),
            decreases r@.len() - j,
        {
            j = j + 1;
        }
        proof {
            lemma_str_insert_pos_bounds(views(r@), x@, 0);
        }
        let ghost r0 = r@;
        r.insert(j, x);
        assert(views(r@) =~= views(r0).insert(j as int, x@));
        assert(views(input@) =~= s.skip(i + 1)) by {
            assert(input@ =~= in0.skip(1));
            assert forall|k: int| 0 <= k < views(input@).len() implies views(input@)[k] == s.skip(i + 1)[k] by {
                assert(views(input@)[k] == input@[k]@);
                assert(input@[k] == in0[k + 1]);
                assert(views(in0)[k + 1] == in0[k + 1]@);
                assert(views(in0)[k + 1] == s.skip(i as int)[k + 1]);
            }
        }
        i = i + 1;
    }
    r
}

/// The first occurrences among the first `n` strings of `s`, in order.
pub open spec fn distinct_upto(s: Seq<Seq<char>>, n: int) -> Seq<Seq<char>>
    decreases n,
{
    if n <= 0 {
        Seq::empty()
    } else {
        let r = distinct_upto(s, n - 1);
        if r.contains(s[n - 1]) {
            r
        } else {
            r.push(s[n - 1])
        }
    }
}

pub open spec fn distinct_strings(s: Seq<Seq<char>>) -> Seq<Seq<char>> {
    distinct_upto(s, s.len() as int)
}

fn contains_string(v: &Vec<String>, x: &String) -> (r: bool)
    ensures
        r == views(v@).contains(x@),
{
    let mut i: usize = 0;
    while i < v.len()
        invariant
            i <= v@.len(),
            forall|j: int| 0 <= j < i ==> v@[j]@ != x@,
        decreases v@.len() - i,
    {
        if v[i] == *x {
            assert(views(v@)[i as int] == x@);
            return true;
        }
        i = i + 1;
    }
    assert forall|j: int| 0 <= j < views(v@).len() implies views(v@)[j] != x@ by {
        assert(views(v@)[j] == v@[j]@);
    }
    false
}

/// The strings of `v` without repeats, first occurrences in order.
pub fn dedup_strings(v: &Vec<String>) -> (r: Vec<String>)
    ensures
        views(r@) == distinct_strings(views(v@)),
{
    let ghost s = views(v@);
    let mut r: Vec<String> = Vec::new();
    let mut i: usize = 0;
    while i < v.len()
        invariant
            s == views(v@),
            i <= v@.len(),
            views(r@) == distinct_upto(s, i as int),
        decreases v@.len() - i,
    {
        let x = &v[i];
        assert(x@ == s[i as int]);
        if !contains_string(&r, x) {
            let ghost r0 = r@;
            r.push(x.clone());
            assert(views(r@) =~= views(r0).push(x@));
        }
        i = i + 1;
    }
    r
}

/// Whether `a` and `b` hold the same characters.
pub fn str_equal(a: &str, b: &str) -> (r: bool)
    ensures
        r == (a@ == b@),
{
    let n = a.unicode_len();
    if n != b.unicode_len() {
        return false;
    }
    let mut i: usize = 0;
    while i < n
        invariant
            n == a@.len(),
            n == b@.len(),
            i <= n,
            forall|j: int| 0 <= j < i ==> a@[j] == b@[j],
        decreases n - i,
    {
        if a.get_char(i) != b.get_char(i) {
            return false;
        }
        i = i + 1;
    }
    assert(a@ =~= b@);
    true
}

} // verus!
