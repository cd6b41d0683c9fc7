//! Trusted declarations of the outside types and functions that the verified
//! code calls. Each item below states, and only states, what the outside
//! crate's source shows about the call.
use vstd::prelude::*;
use ahash::AHashMap;
use ahash::AHashSet;
use bit_set::BitSet;
use ahash::RandomState;
use rand::seq::SliceRandom;
use std::sync::mpsc::{Receiver, SendError};
use crate::threading::StatusData;
use vstd::utf8::{encode_utf8, valid_utf8};
use vstd::string::StringSliceAdditionalSpecFns;

verus! {

/// `ahash::AHashMap`, a `std::collections::HashMap` with a randomly seeded
/// hasher. Verus sees nothing inside a value of it; its contents are named by
/// `map_contents`.
#[verifier::external_type_specification]
#[verifier::external_body]
#[verifier::reject_recursive_types(K)]
#[verifier::reject_recursive_types(V)]
#[verifier::reject_recursive_types(S)]
pub struct ExAHashMap<K, V, S>(AHashMap<K, V, S>);

/// `ahash::RandomState`, the randomly seeded hasher of the maps and sets.
#[verifier::external_type_specification]
#[verifier::external_body]
pub struct ExRandomState(RandomState);

/// The key/value pairs held by a map of link weights.
pub uninterp spec fn map_contents(m: AHashMap<usize, usize>) -> Map<usize, usize>;

/// `AHashMap::new`: a map with no entries.
#[verifier::external_body]
pub(crate) fn map_new() -> (m: AHashMap<usize, usize>)
    ensures
        map_contents(m).is_empty(),
{
    AHashMap::new()
}

/// `AHashMap::get`: the value stored under `k`, if any.
#[verifier::external_body]
pub(crate) fn map_get(m: &AHashMap<usize, usize>, k: usize) -> (r: Option<usize>)
    ensures
        r == (if map_contents(*m).contains_key(k) {
            Some(map_contents(*m)[k])
        } else {
            None
        }),
{
    m.get(&k).copied()
}

/// `AHashMap::insert`: stores `v` under `k`, replacing any previous value.
#[verifier::external_body]
pub(crate) fn map_insert(m: &mut AHashMap<usize, usize>, k: usize, v: usize)
    ensures
        map_contents(*final(m)) == map_contents(*old(m)).insert(k, v),
{
    m.insert(k, v);
}

/// `HashMap::iter` (through `Deref`), collected: every entry exactly once, in
/// an order that the map's random seed decides.
#[verifier::external_body]
pub(crate) fn map_entries(m: &AHashMap<usize, usize>) -> (r: Vec<(usize, usize)>)
    ensures
        forall|i: int, j: int| 0 <= i < j < r@.len() ==> r@[i].0 != r@[j].0,
        forall|i: int|
            0 <= i < r@.len() ==> map_contents(*m).contains_key(#[trigger] r@[i].0)
                && map_contents(*m)[r@[i].0] == r@[i].1,
        forall|k: usize|
            map_contents(*m).contains_key(k) ==> exists|i: int| 0 <= i < r@.len() && #[trigger] r@[i].0 == k,
{
    m.iter().map(|(&k, &v)| (k, v)).collect()
}

/// The node number of each database number read.
pub uninterp spec fn id_map_contents(m: AHashMap<u64, usize>) -> Map<u64, usize>;

/// `AHashMap::new`, keyed by database numbers: a map with no entries.
#[verifier::external_body]
pub(crate) fn id_map_new() -> (m: AHashMap<u64, usize>)
    ensures
        id_map_contents(m).is_empty(),
{
    AHashMap::new()
}

/// `AHashMap::get`, keyed by database numbers: the value stored under `k`,
/// if any.
#[verifier::external_body]
pub(crate) fn id_map_get(m: &AHashMap<u64, usize>, k: u64) -> (r: Option<usize>)
    ensures
        r == (if id_map_contents(*m).contains_key(k) {
            Some(id_map_contents(*m)[k])
        } else {
            None
        }),
{
    m.get(&k).copied()
}

/// `AHashMap::insert`, keyed by database numbers: stores `v` under `k`,
/// replacing any previous value.
#[verifier::external_body]
pub(crate) fn id_map_insert(m: &mut AHashMap<u64, usize>, k: u64, v: usize)
    ensures
        id_map_contents(*final(m)) == id_map_contents(*old(m)).insert(k, v),
{
    m.insert(k, v);
}

/// `SliceRandom::shuffle` with `rand::thread_rng()`: a Fisher-Yates shuffle
/// of the vector in place. Which permutation comes out is left to chance; the
/// elements are the same, with the same multiplicities.
#[verifier::external_body]
pub(crate) fn shuffle(v: &mut Vec<usize>)
    ensures
        final(v)@.len() == old(v)@.len(),
        final(v)@.to_multiset() == old(v)@.to_multiset(),
{
    v.shuffle(&mut rand::thread_rng());
}

/// `ahash::AHashSet`, a `std::collections::HashSet` with a randomly seeded
/// hasher. Its contents are named by `set_contents`.
#[verifier::external_type_specification]
#[verifier::external_body]
#[verifier::reject_recursive_types(T)]
#[verifier::reject_recursive_types(S)]
pub struct ExAHashSet<T, S>(AHashSet<T, S>);

/// The elements of a set of node indices.
pub uninterp spec fn set_contents(s: AHashSet<usize>) -> Set<usize>;

/// `AHashSet::new`: a set with no elements.
#[verifier::external_body]
pub(crate) fn set_new() -> (s: AHashSet<usize>)
    ensures
        set_contents(s).is_empty(),
{
    AHashSet::new()
}

/// `AHashSet::from_iter` over the slice: the set of its elements.
#[verifier::external_body]
pub(crate) fn set_from_slice(v: &[usize]) -> (s: AHashSet<usize>)
    ensures
        set_contents(s) == v@.to_set(),
{
    AHashSet::from_iter(v.iter().copied())
}

/// `HashSet::intersection` (through `Deref`), collected into a new set.
#[verifier::external_body]
pub(crate) fn set_intersection(a: &AHashSet<usize>, b: &AHashSet<usize>) -> (s: AHashSet<usize>)
    ensures
        set_contents(s) == set_contents(*a).intersect(set_contents(*b)),
{
    a.intersection(b).copied().collect()
}

/// `HashSet::contains` (through `Deref`).
#[verifier::external_body]
pub(crate) fn set_contains(s: &AHashSet<usize>, v: usize) -> (r: bool)
    ensures
        r == set_contents(*s).contains(v),
{
    s.contains(&v)
}

/// `HashSet::insert` (through `DerefMut`): adds `v`.
#[verifier::external_body]
pub(crate) fn set_insert(s: &mut AHashSet<usize>, v: usize)
    ensures
        set_contents(*final(s)) == set_contents(*old(s)).insert(v),
{
    s.insert(v);
}

/// `HashSet::is_empty` (through `Deref`).
#[verifier::external_body]
pub(crate) fn set_is_empty(s: &AHashSet<usize>) -> (r: bool)
    ensures
        r == set_contents(*s).is_empty(),
{
    s.is_empty()
}

/// `HashSet::iter` (through `Deref`), collected: every element exactly once,
/// in an order that the set's random seed decides.
#[verifier::external_body]
pub(crate) fn set_to_vec(s: &AHashSet<usize>) -> (r: Vec<usize>)
    ensures
        r@.no_duplicates(),
        r@.to_set() == set_contents(*s),
{
    s.iter().copied().collect()
}

/// `bit_set::BitSet`, a set of small integers stored as a bit vector. Its
/// contents are named by `bits_contents`.
#[verifier::external_type_specification]
#[verifier::external_body]
#[verifier::reject_recursive_types(B)]
pub struct ExBitSet<B>(BitSet<B>);

/// The elements of a bit set.
pub uninterp spec fn bits_contents(s: BitSet) -> Set<usize>;

/// `BitSet::with_capacity`: an empty set with room for `n` bits.
#[verifier::external_body]
pub(crate) fn bits_with_capacity(n: usize) -> (s: BitSet)
    ensures
        bits_contents(s).is_empty(),
        bits_contents(s).finite(),
{
    BitSet::with_capacity(n)
}

/// `BitSet::insert`: adds `v`, growing the bit vector when needed (growing
/// past `usize::MAX` bits would overflow, hence the bound on `v`).
#[verifier::external_body]
pub(crate) fn bits_insert(s: &mut BitSet, v: usize)
    requires
        v < usize::MAX,
    ensures
        bits_contents(*final(s)) == bits_contents(*old(s)).insert(v),
{
    s.insert(v);
}

/// `BitSet::contains`.
#[verifier::external_body]
pub(crate) fn bits_contains(s: &BitSet, v: usize) -> (r: bool)
    ensures
        r == bits_contents(*s).contains(v),
{
    s.contains(v)
}

/// `BitSet::len`: the number of elements (the count of set bits).
#[verifier::external_body]
pub(crate) fn bits_len(s: &BitSet) -> (r: usize)
    requires
        bits_contents(*s).finite(),
    ensures
        r == bits_contents(*s).len(),
{
    s.len()
}


/// `std::str::from_utf8`: the bytes as a string slice, when (and only when)
/// they are valid UTF-8.
#[verifier::external_body]
pub(crate) fn str_from_utf8(v: &[u8]) -> (r: Option<&str>)
    ensures
        r is Some <==> valid_utf8(v@),
        r matches Some(s) ==> s.spec_bytes() == v@,
{
    std::str::from_utf8(v).ok()
}


/// Pairs are in increasing order: by the first component, then by the
/// second.
pub open spec fn pairs_sorted(s: Seq<(usize, usize)>) -> bool {
    forall|i: int, j: int|
        0 <= i < j < s.len() ==> (s[i].0 < s[j].0 || (s[i].0 == s[j].0 && s[i].1 <= s[j].1))
}

/// `<[T]>::sort_unstable` on tuples (through `DerefMut`): the same elements,
/// in increasing order of the tuples' `Ord` (first component, then second).
#[verifier::external_body]
pub(crate) fn sort_pairs(v: &mut Vec<(usize, usize)>)
    ensures
        final(v)@.to_multiset() == old(v)@.to_multiset(),
        final(v)@.len() == old(v)@.len(),
        pairs_sorted(final(v)@),
{
    v.sort_unstable();
}


/// `a` comes before `b` in the order of byte strings: at the first position
/// where they differ `a` has the smaller byte, or `a` is a proper prefix of
/// `b`.
pub open spec fn bytes_lt(a: Seq<u8>, b: Seq<u8>) -> bool
    decreases a.len(),
{
    if a.len() == 0 {
        b.len() > 0
    } else if b.len() == 0 {
        false
    } else if a[0] != b[0] {
        a[0] < b[0]
    } else {
        bytes_lt(a.drop_first(), b.drop_first())
    }
}

/// The bytes by which std orders a string.
pub open spec fn key_bytes(s: String) -> Seq<u8> {
    encode_utf8(s@)
}

/// Pairs of a string and a number are in increasing order: by the string's
/// bytes, then by the number.
pub open spec fn keyed_sorted(s: Seq<(String, u32)>) -> bool {
    forall|i: int, j: int|
        0 <= i < j < s.len() ==> bytes_lt(key_bytes(s[i].0), key_bytes(s[j].0)) || (key_bytes(s[i].0)
            == key_bytes(s[j].0) && s[i].1 <= s[j].1)
}

/// `<[T]>::sort_unstable` on (string, number) pairs (through `DerefMut`):
/// the same elements, in increasing order of the tuples' `Ord`, which
/// compares the strings first (std orders strings by their bytes,
/// lexicographically) and then the numbers.
#[verifier::external_body]
pub(crate) fn sort_keyed(v: &mut Vec<(String, u32)>)
    ensures
        final(v)@.to_multiset() == old(v)@.to_multiset(),
        final(v)@.len() == old(v)@.len(),
        keyed_sorted(final(v)@),
{
    v.sort_unstable();
}

/// `std::sync::mpsc::Receiver`, the receiving end of a channel.
#[verifier::external_type_specification]
#[verifier::external_body]
#[verifier::reject_recursive_types(T)]
pub struct ExReceiver<T>(Receiver<T>);

/// `std::sync::mpsc::SendError`, a value that could not be sent.
#[verifier::external_type_specification]
#[verifier::external_body]
#[verifier::reject_recursive_types(T)]
pub struct ExSendError<T>(SendError<T>);

/// `Receiver::try_recv`: the next value sent, if one is waiting; none when
/// the channel is empty or closed. What arrives depends on the other threads,
/// so nothing is stated of it.
#[verifier::external_body]
pub(crate) fn try_recv_status(rx: &Receiver<StatusData>) -> Option<StatusData> {
    rx.try_recv().ok()
}

} // verus!
