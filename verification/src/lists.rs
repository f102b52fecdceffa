//! Association lists and string lists: the planner's configuration keys its
//! maps by airport code, and these helpers look values up in them.
use vstd::prelude::*;

verus! {

/// `s` occurs (by its characters) in the list `v`.
pub open spec fn seq_has(v: Seq<String>, s: Seq<char>) -> bool {
    exists|i: int| 0 <= i < v.len() && #[trigger] v[i]@ == s
}

/// Whether the list holds a string equal to `s`.
pub fn contains_str(v: &Vec<String>, s: &String) -> (r: bool)
    ensures
        r == seq_has(v@, s@),
{
    let mut i: usize = 0;
    while i < v.len()
        invariant
            i <= v.len(),
            forall|k: int| 0 <= k < i ==> #[trigger] v@[k]@ != s@,
        decreases v.len() - i,
    {
        if v[i] == *s {
            return true;
        }
        i = i + 1;
    }
    false
}

/// Entry `i` is the first one of `m` whose key is `k`.
pub open spec fn key_at<V>(m: Seq<(String, V)>, k: Seq<char>, i: int) -> bool {
    &&& 0 <= i < m.len()
    &&& m[i].0@ == k
    &&& forall|j: int| 0 <= j < i ==> #[trigger] m[j].0@ != k
}

/// Some entry of `m` has key `k`.
pub open spec fn has_key<V>(m: Seq<(String, V)>, k: Seq<char>) -> bool {
    exists|i: int| 0 <= i < m.len() && #[trigger] m[i].0@ == k
}

/// The value of the first entry of `m` with key `k`, when there is one.
pub open spec fn lookup<V>(m: Seq<(String, V)>, k: Seq<char>) -> Option<V> {
    if has_key(m, k) {
        Some(m[choose|i: int| key_at(m, k, i)].1)
    } else {
        None
    }
}

/// The first entry with a given key is unique, and `lookup` gives its value.
pub proof fn lemma_key_at<V>(m: Seq<(String, V)>, k: Seq<char>, i: int)
    requires
        key_at(m, k, i),
    ensures
        has_key(m, k),
        lookup(m, k) == Some(m[i].1),
        (choose|c: int| key_at(m, k, c)) == i,
{
    assert(m[i].0@ == k);
    let c = choose|c: int| key_at(m, k, c);
    assert(key_at(m, k, c));
    if c < i {
        assert(m[c].0@ != k);
    }
    if i < c {
        assert(m[i].0@ != k);
    }
}

/// Index of the first entry of `m` with key `k`.
pub fn find_key<V>(m: &Vec<(String, V)>, k: &String) -> (r: Option<usize>)
    ensures
        match r {
            Some(i) => key_at(m@, k@, i as int) && lookup(m@, k@) == Some(m@[i as int].1),
            None => !has_key(m@, k@) && lookup(m@, k@) is None,
        },
{
    let mut i: usize = 0;
    while i < m.len()
        invariant
            i <= m.len(),
            forall|j: int| 0 <= j < i ==> #[trigger] m@[j].0@ != k@,
        decreases m.len() - i,
    {
        if m[i].0 == *k {
            proof {
                lemma_key_at(m@, k@, i as int);
            }
            return Some(i);
        }
        i = i + 1;
    }
    None
}

/// The list stored under `k` in `m` holds `s`.
pub open spec fn list_at_has(m: Seq<(String, Vec<String>)>, k: Seq<char>, s: Seq<char>) -> bool {
    match lookup(m, k) {
        Some(v) => seq_has(v@, s),
        None => false,
    }
}

/// Whether the list stored under `k` holds `s`.
pub fn list_at_contains(m: &Vec<(String, Vec<String>)>, k: &String, s: &String) -> (r: bool)
    ensures
        r == list_at_has(m@, k@, s@),
{
    match find_key(m, k) {
        Some(i) => contains_str(&m[i].1, s),
        None => false,
    }
}

} // verus!

verus! {

/// Some group of `groups` holds both `a` and `b`.
pub open spec fn some_group_has_both(groups: Seq<Vec<String>>, a: Seq<char>, b: Seq<char>) -> bool {
    exists|i: int| 0 <= i < groups.len() && seq_has(#[trigger] groups[i]@, a) && seq_has(groups[i]@, b)
}

/// Whether some group holds both `a` and `b`.
pub fn any_group_has_both(groups: &Vec<Vec<String>>, a: &String, b: &String) -> (r: bool)
    ensures
        r == some_group_has_both(groups@, a@, b@),
{
    let mut i: usize = 0;
    while i < groups.len()
        invariant
            i <= groups.len(),
            forall|k: int| 0 <= k < i ==> !(seq_has(#[trigger] groups@[k]@, a@) && seq_has(groups@[k]@, b@)),
        decreases groups.len() - i,
    {
        if contains_str(&groups[i], a) && contains_str(&groups[i], b) {
            return true;
        }
        i = i + 1;
    }
    false
}

} // verus!

verus! {

/// Where some entry has a key, a first one does.
pub proof fn lemma_first_key<V>(m: Seq<(String, V)>, k: Seq<char>, w: int)
    requires
        0 <= w < m.len(),
        m[w].0@ == k,
    ensures
        exists|i: int| key_at(m, k, i),
    decreases w,
{
    if forall|j: int| 0 <= j < w ==> #[trigger] m[j].0@ != k {
        assert(key_at(m, k, w));
    } else {
        let j = choose|j: int| 0 <= j < w && #[trigger] m[j].0@ == k;
        lemma_first_key(m, k, j);
    }
}

/// Entries added after a key's first entry do not change its lookup.
pub proof fn lemma_lookup_prefix<V>(m: Seq<(String, V)>, more: Seq<(String, V)>, k: Seq<char>)
    requires
        has_key(m, k),
    ensures
        lookup(m + more, k) == lookup(m, k),
{
    let w = choose|w: int| 0 <= w < m.len() && #[trigger] m[w].0@ == k;
    lemma_first_key(m, k, w);
    let i = choose|i: int| key_at(m, k, i);
    lemma_key_at(m, k, i);
    let mm = m + more;
    assert forall|j: int| 0 <= j < i implies #[trigger] mm[j].0@ != k by {
        assert(mm[j] == m[j]);
    }
    assert(mm[i] == m[i]);
    assert(key_at(mm, k, i));
    lemma_key_at(mm, k, i);
}

/// Groups added to a list of groups keep every pair that a group held.
pub proof fn lemma_groups_prefix(m: Seq<Vec<String>>, more: Seq<Vec<String>>, a: Seq<char>, b: Seq<char>)
    ensures
        some_group_has_both(m, a, b) ==> some_group_has_both(m + more, a, b),
{
    if some_group_has_both(m, a, b) {
        let i = choose|i: int| 0 <= i < m.len() && seq_has(#[trigger] m[i]@, a) && seq_has(m[i]@, b);
        assert((m + more)[i] == m[i]);
    }
}

/// Entries added to a map of lists keep every member that a list held.
pub proof fn lemma_list_at_prefix(m: Seq<(String, Vec<String>)>, more: Seq<(String, Vec<String>)>, k: Seq<char>, s: Seq<char>)
    ensures
        list_at_has(m, k, s) ==> list_at_has(m + more, k, s),
{
    if list_at_has(m, k, s) {
        lemma_lookup_prefix(m, more, k);
    }
}

/// No two entries of `m` have the same key, as in a map.
pub open spec fn keys_distinct<V>(m: Seq<(String, V)>) -> bool {
    forall|i: int, j: int| 0 <= i < j < m.len() ==> (#[trigger] m[i]).0@ != (#[trigger] m[j]).0@
}

/// Every entry of `m` is an entry of `m2`, wherever it stands there.
pub open spec fn entries_kept<V>(m: Seq<(String, V)>, m2: Seq<(String, V)>) -> bool {
    forall|i: int| 0 <= i < m.len() ==> m2.contains(#[trigger] m[i])
}

/// In a map without repeated keys, each entry is what its key looks up.
pub proof fn lemma_lookup_entry<V>(m: Seq<(String, V)>, i: int)
    requires
        keys_distinct(m),
        0 <= i < m.len(),
    ensures
        lookup(m, m[i].0@) == Some(m[i].1),
{
    assert forall|j: int| 0 <= j < i implies #[trigger] m[j].0@ != m[i].0@ by {
        assert(m[j].0@ != m[i].0@);
    }
    assert(key_at(m, m[i].0@, i));
    lemma_key_at(m, m[i].0@, i);
}

/// A key of `m` looks up the same value in a map without repeated keys
/// that keeps every entry of `m`, wherever the entries stand.
pub proof fn lemma_lookup_kept<V>(m: Seq<(String, V)>, m2: Seq<(String, V)>, k: Seq<char>)
    requires
        has_key(m, k),
        keys_distinct(m2),
        entries_kept(m, m2),
    ensures
        lookup(m2, k) == lookup(m, k),
{
    let w = choose|w: int| 0 <= w < m.len() && #[trigger] m[w].0@ == k;
    lemma_first_key(m, k, w);
    let i = choose|i: int| key_at(m, k, i);
    lemma_key_at(m, k, i);
    assert(m2.contains(m[i]));
    let j = choose|j: int| 0 <= j < m2.len() && m2[j] == m[i];
    lemma_lookup_entry(m2, j);
}

/// A list of groups that keeps every group of `m` keeps every pair that a
/// group of `m` held.
pub proof fn lemma_groups_kept(m: Seq<Vec<String>>, m2: Seq<Vec<String>>, a: Seq<char>, b: Seq<char>)
    requires
        forall|i: int| 0 <= i < m.len() ==> m2.contains(#[trigger] m[i]),
    ensures
        some_group_has_both(m, a, b) ==> some_group_has_both(m2, a, b),
{
    if some_group_has_both(m, a, b) {
        let i = choose|i: int| 0 <= i < m.len() && seq_has(#[trigger] m[i]@, a) && seq_has(m[i]@, b);
        assert(m2.contains(m[i]));
        let j = choose|j: int| 0 <= j < m2.len() && m2[j] == m[i];
        assert(seq_has(m2[j]@, a) && seq_has(m2[j]@, b));
    }
}

} // verus!
