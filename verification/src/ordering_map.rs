//! Trusted interface to the insertion-ordered map (crate `linked_hash_map`)
//! that carries the shared variable ordering: each Boolean symbol maps to a
//! position, and iteration order is insertion order. The map's contents are
//! modelled as the sequence of its `(symbol, position)` entries in that
//! order.

use vstd::prelude::*;

verus! {

use linked_hash_map::LinkedHashMap;

#[verifier::external_type_specification]
#[verifier::external_body]
#[verifier::reject_recursive_types(K)]
#[verifier::reject_recursive_types(V)]
#[verifier::reject_recursive_types(S)]
pub struct ExLinkedHashMap<K, V, S>(LinkedHashMap<K, V, S>);

/// The entries of an ordering map, as (symbol, position) pairs in
/// insertion order.
pub uninterp spec fn map_entries(m: LinkedHashMap<char, usize>) -> Seq<(char, usize)>;

/// Some entry of `s` carries the key `c`.
pub open spec fn entries_has_key(s: Seq<(char, usize)>, c: char) -> bool {
    exists|i: int| 0 <= i < s.len() && (#[trigger] s[i]).0 == c
}

/// The value of the first entry of `s` (from index `i` on) whose key is
/// `c`, if any.
pub open spec fn lookup_from(s: Seq<(char, usize)>, c: char, i: int) -> Option<usize>
    decreases s.len() - i,
{
    if i < 0 || i >= s.len() {
        None
    } else if s[i].0 == c {
        Some(s[i].1)
    } else {
        lookup_from(s, c, i + 1)
    }
}

/// The value stored for key `c` (keys are unique in a map built through
/// this interface, so the first match is the only one).
pub open spec fn entries_lookup(s: Seq<(char, usize)>, c: char) -> Option<usize> {
    lookup_from(s, c, 0)
}

/// A lookup misses exactly when no entry carries the key.
pub proof fn lemma_lookup_none(s: Seq<(char, usize)>, c: char, i: int)
    requires
        0 <= i,
    ensures
        (lookup_from(s, c, i) is None) <==> (forall|j: int|
            i <= j < s.len() ==> (#[trigger] s[j]).0 != c),
    decreases s.len() - i,
{
    if i < s.len() {
        lemma_lookup_none(s, c, i + 1);
    }
}

/// A successful lookup returns the value of some entry with that key.
pub proof fn lemma_lookup_some_is_entry(s: Seq<(char, usize)>, c: char, i: int)
    requires
        0 <= i,
    ensures
        match lookup_from(s, c, i) {
            Some(p) => exists|j: int| i <= j < s.len() && #[trigger] s[j] == (c, p),
            None => true,
        },
    decreases s.len() - i,
{
    if 0 <= i < s.len() {
        if s[i].0 == c {
            assert(s[i] == (c, s[i].1));
        } else {
            lemma_lookup_some_is_entry(s, c, i + 1);
        }
    }
}

/// Relies on `LinkedHashMap::new`: creates an empty map.
#[verifier::external_body]
pub fn ordering_new() -> (m: LinkedHashMap<char, usize>)
    ensures
        map_entries(m) == Seq::<(char, usize)>::empty(),
{
    LinkedHashMap::new()
}

/// Relies on `LinkedHashMap::len`: the number of entries.
#[verifier::external_body]
pub fn ordering_len(m: &LinkedHashMap<char, usize>) -> (n: usize)
    ensures
        n == map_entries(*m).len(),
{
    m.len()
}

/// Relies on `LinkedHashMap::contains_key`.
#[verifier::external_body]
pub fn ordering_contains(m: &LinkedHashMap<char, usize>, c: char) -> (b: bool)
    ensures
        b == entries_has_key(map_entries(*m), c),
{
    m.contains_key(&c)
}

/// Relies on `LinkedHashMap::get`: the value stored for a key.
#[verifier::external_body]
pub fn ordering_get(m: &LinkedHashMap<char, usize>, c: char) -> (r: Option<usize>)
    ensures
        r == entries_lookup(map_entries(*m), c),
{
    m.get(&c).copied()
}

/// Relies on `LinkedHashMap::keys`: the keys, in insertion order.
#[verifier::external_body]
pub fn ordering_keys(m: &LinkedHashMap<char, usize>) -> (r: Vec<char>)
    ensures
        r@ == map_entries(*m).map_values(|p: (char, usize)| p.0),
{
    m.keys().copied().collect()
}

/// Relies on `LinkedHashMap::insert`: a fresh key is appended at the back
/// and `None` comes back; an existing key has its value replaced, its entry
/// moved to the back, and its old value returned.
#[verifier::external_body]
pub fn ordering_insert(m: &mut LinkedHashMap<char, usize>, c: char, v: usize) -> (r: Option<usize>)
    ensures
        !entries_has_key(map_entries(*old(m)), c) ==> r == None::<usize> && map_entries(*final(m))
            == map_entries(*old(m)).push((c, v)),
        entries_has_key(map_entries(*old(m)), c) ==> r == entries_lookup(map_entries(*old(m)), c)
            && map_entries(*final(m)) == map_entries(*old(m)).filter(|p: (char, usize)| p.0 != c).push(
            (c, v),
        ),
{
    m.insert(c, v)
}

} // verus!
