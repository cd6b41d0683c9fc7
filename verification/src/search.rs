//! Looking persons up: by exact id, through an index sorted by id, and
//! putting an exact match first among the results of a fuzzy search.
use vstd::prelude::*;
use vstd::utf8::{encode_utf8, encode_utf8_decode_utf8};
use crate::graph_storage::Person;
use crate::third_party::{bytes_lt, key_bytes, keyed_sorted, sort_keyed};

verus! {

/// Every person's id with the person's number: the number of each entry is
/// a person's, the id is that person's, and every person has an entry.
pub open spec fn indexes(exact: Seq<(String, u32)>, persons: Seq<Person>) -> bool {
    &&& exact.len() == persons.len()
    &&& forall|k: int|
        0 <= k < exact.len() ==> (#[trigger] exact[k]).1 < persons.len() && exact[k].0@ == persons[exact[k].1 as int].id@
    &&& forall|p: int| 0 <= p < persons.len() ==> #[trigger] has_entry(exact, p)
}

/// Person `p` has an entry in `exact`.
pub open spec fn has_entry(exact: Seq<(String, u32)>, p: int) -> bool {
    exists|k: int| 0 <= k < exact.len() && #[trigger] exact[k].1 == p
}

/// The exact-id half of the search: every id with its person, sorted so
/// that an id is found by bisection.
pub struct SearchIndex {
    pub exact: Vec<(String, u32)>,
}

proof fn lemma_lt_irreflexive(a: Seq<u8>)
    ensures
        !bytes_lt(a, a),
    decreases a.len(),
{
    if a.len() > 0 {
        lemma_lt_irreflexive(a.drop_first());
    }
}

proof fn lemma_lt_transitive(a: Seq<u8>, b: Seq<u8>, c: Seq<u8>)
    requires
        bytes_lt(a, b),
        bytes_lt(b, c),
    ensures
        bytes_lt(a, c),
    decreases a.len(),
{
    if a.len() > 0 && b.len() > 0 && c.len() > 0 && a[0] == b[0] && b[0] == c[0] {
        lemma_lt_transitive(a.drop_first(), b.drop_first(), c.drop_first());
    }
}

/// Past a common prefix, the order of two byte strings is that of their
/// rests.
proof fn lemma_lt_skip(a: Seq<u8>, b: Seq<u8>, i: int)
    requires
        0 <= i <= a.len(),
        i <= b.len(),
        a.take(i) =~= b.take(i),
    ensures
        bytes_lt(a, b) == bytes_lt(a.skip(i), b.skip(i)),
    decreases i,
{
    if i > 0 {
        assert(a[0] == a.take(i)[0]);
        assert(b[0] == b.take(i)[0]);
        assert(a.drop_first().take(i - 1) =~= b.drop_first().take(i - 1)) by {
            assert forall|k: int| 0 <= k < i - 1 implies #[trigger] a.drop_first().take(i - 1)[k] == b.drop_first().take(i - 1)[k] by {
                assert(a.take(i)[k + 1] == b.take(i)[k + 1]);
            }
        }
        lemma_lt_skip(a.drop_first(), b.drop_first(), i - 1);
        assert(a.drop_first().skip(i - 1) =~= a.skip(i));
        assert(b.drop_first().skip(i - 1) =~= b.skip(i));
    } else {
        assert(a.skip(0) =~= a);
        assert(b.skip(0) =~= b);
    }
}

/// Compares two byte strings: negative when `a` comes first, zero when
/// they are equal, positive when `b` comes first.
fn compare_bytes(a: &[u8], b: &[u8]) -> (r: i8)
    ensures
        r < 0 <==> bytes_lt(a@, b@),
        r == 0 <==> a@ == b@,
        r > 0 <==> bytes_lt(b@, a@),
{
    let mut i: usize = 0;
    while i < a.len() && i < b.len()
        invariant
            i <= a@.len(),
            i <= b@.len(),
            a@.take(i as int) =~= b@.take(i as int),
        decreases a@.len() - i,
    {
        if a[i] != b[i] {
            proof {
                lemma_lt_skip(a@, b@, i as int);
                lemma_lt_skip(b@, a@, i as int);
                assert(a@.skip(i as int)[0] == a@[i as int]);
                assert(b@.skip(i as int)[0] == b@[i as int]);
            }
            if a[i] < b[i] {
                return -1;
            } else {
                return 1;
            }
        }
        i += 1;
        proof {
            assert(a@.take(i as int) =~= a@.take(i - 1).push(a@[i - 1]));
            assert(b@.take(i as int) =~= b@.take(i - 1).push(b@[i - 1]));
        }
    }
    proof {
        lemma_lt_skip(a@, b@, i as int);
        lemma_lt_skip(b@, a@, i as int);
        if i == a.len() && i == b.len() {
            assert(a@ =~= a@.take(i as int));
            assert(b@ =~= b@.take(i as int));
        }
        if i == a.len() && i < b.len() {
            assert(a@ != b@) by {
                assert(a@.len() != b@.len());
            }
        }
        if i == b.len() && i < a.len() {
            assert(a@.len() != b@.len());
        }
    }
    if a.len() == b.len() {
        0
    } else if a.len() < b.len() {
        -1
    } else {
        1
    }
}

/// Two strings with the same bytes are the same string.
proof fn lemma_same_bytes(a: Seq<char>, b: Seq<char>)
    requires
        encode_utf8(a) == encode_utf8(b),
    ensures
        a == b,
{
    encode_utf8_decode_utf8(a);
    encode_utf8_decode_utf8(b);
}

impl SearchIndex {
    /// Lists every person's id with the person's number, sorted by id.
    pub fn new(persons: &[Person]) -> (r: SearchIndex)
        requires
            persons@.len() <= 0x1_0000_0000,
        ensures
            keyed_sorted(r.exact@),
            indexes(r.exact@, persons@),
    {
        let mut exact: Vec<(String, u32)> = Vec::new();
        let mut i: usize = 0;
        while i < persons.len()
            invariant
                i <= persons@.len(),
                persons@.len() <= 0x1_0000_0000,
                exact@.len() == i,
                forall|k: int| 0 <= k < i ==> (#[trigger] exact@[k]).1 == k && exact@[k].0@ == persons@[k].id@,
            decreases persons@.len() - i,
        {
            exact.push((persons[i].id.clone(), i as u32));
            i += 1;
        }
        let ghost before = exact@;
        sort_keyed(&mut exact);
        proof {
            broadcast use vstd::seq_lib::group_to_multiset_ensures;
            assert forall|k: int| 0 <= k < exact@.len() implies (#[trigger] exact@[k]).1 < persons@.len()
                && exact@[k].0@ == persons@[exact@[k].1 as int].id@ by {
                assert(exact@.to_multiset().count(exact@[k]) > 0);
                assert(before.contains(exact@[k]));
                let j = choose|j: int| 0 <= j < before.len() && before[j] == exact@[k];
                assert(before[j].1 == j);
            }
            assert forall|p: int| 0 <= p < persons@.len() implies #[trigger] has_entry(exact@, p) by {
                assert(before[p].1 == p);
                assert(before.to_multiset().count(before[p]) > 0);
                assert(exact@.contains(before[p]));
            }
        }
        SearchIndex { exact }
    }

    /// The number of a person whose id is `query`, found by bisection.
    pub fn find_exact(&self, query: &str) -> (r: Option<u32>)
        requires
            keyed_sorted(self.exact@),
        ensures
            match r {
                Some(i) => exists|k: int|
                    0 <= k < self.exact@.len() && #[trigger] self.exact@[k].1 == i && self.exact@[k].0@ == query@,
                None => forall|k: int| 0 <= k < self.exact@.len() ==> (#[trigger] self.exact@[k]).0@ != query@,
            },
    {
        let q = query.as_bytes();
        let ghost qb = encode_utf8(query@);
        let ghost ex = self.exact@;
        let mut lo: usize = 0;
        let mut hi: usize = self.exact.len();
        while lo < hi
            invariant
                lo <= hi <= ex.len(),
                ex == self.exact@,
                q@ == qb,
                qb == encode_utf8(query@),
                keyed_sorted(ex),
                forall|k: int| 0 <= k < lo ==> bytes_lt(#[trigger] key_bytes(ex[k].0), qb),
                forall|k: int| hi <= k < ex.len() ==> bytes_lt(qb, #[trigger] key_bytes(ex[k].0)),
            decreases hi - lo,
        {
            let mid = lo + (hi - lo) / 2;
            let key = self.exact[mid].0.as_str().as_bytes();
            let c = compare_bytes(key, q);
            if c < 0 {
                proof {
                    assert forall|k: int| 0 <= k <= mid implies bytes_lt(#[trigger] key_bytes(ex[k].0), qb) by {
                        if k < mid {
                            if bytes_lt(key_bytes(ex[k].0), key_bytes(ex[mid as int].0)) {
                                lemma_lt_transitive(key_bytes(ex[k].0), key_bytes(ex[mid as int].0), qb);
                            }
                        }
                    }
                }
                lo = mid + 1;
            } else if c > 0 {
                proof {
                    assert forall|k: int| mid <= k < ex.len() implies bytes_lt(qb, #[trigger] key_bytes(ex[k].0)) by {
                        if k > mid {
                            if bytes_lt(key_bytes(ex[mid as int].0), key_bytes(ex[k].0)) {
                                lemma_lt_transitive(qb, key_bytes(ex[mid as int].0), key_bytes(ex[k].0));
                            }
                        }
                    }
                }
                hi = mid;
            } else {
                proof {
                    lemma_same_bytes(ex[mid as int].0@, query@);
                }
                return Some(self.exact[mid].1);
            }
        }
        proof {
            assert forall|k: int| 0 <= k < ex.len() implies (#[trigger] ex[k]).0@ != query@ by {
                if ex[k].0@ == query@ {
                    lemma_lt_irreflexive(qb);
                    if k < lo {
                        assert(bytes_lt(key_bytes(ex[k].0), qb));
                    } else {
                        assert(bytes_lt(qb, key_bytes(ex[k].0)));
                    }
                }
            }
        }
        None
    }

    /// The results of a search for `query`: the person whose id is `query`,
    /// when there is one, then the matches `fuzzy` found by name.
    pub fn search(&self, query: &str, fuzzy: Vec<u32>) -> (r: Vec<u32>)
        requires
            keyed_sorted(self.exact@),
        ensures
            exists|e: Option<u32>|
                #![trigger merged(e, fuzzy@)]
                r@ == merged(e, fuzzy@) && match e {
                    Some(i) => exists|k: int|
                        0 <= k < self.exact@.len() && #[trigger] self.exact@[k].1 == i && self.exact@[k].0@ == query@,
                    None => forall|k: int| 0 <= k < self.exact@.len() ==> (#[trigger] self.exact@[k]).0@ != query@,
                },
    {
        let e = self.find_exact(query);
        merge_results(e, fuzzy)
    }
}

/// `s` without its first occurrence of `x`, if any.
pub open spec fn without_first(s: Seq<u32>, x: u32) -> Seq<u32>
    decreases s.len(),
{
    if s.len() == 0 {
        s
    } else if s[0] == x {
        s.drop_first()
    } else {
        seq![s[0]] + without_first(s.drop_first(), x)
    }
}

/// The results shown: the exact match first, then the fuzzy results
/// without it.
pub open spec fn merged(exact: Option<u32>, fuzzy: Seq<u32>) -> Seq<u32> {
    match exact {
        Some(e) => seq![e] + without_first(fuzzy, e),
        None => fuzzy,
    }
}

/// Puts the exact match, when there is one, first among the fuzzy results,
/// and drops it from where it stood among them.
pub fn merge_results(exact: Option<u32>, fuzzy: Vec<u32>) -> (r: Vec<u32>)
    ensures
        r@ == merged(exact, fuzzy@),
{
    match exact {
        None => fuzzy,
        Some(e) => {
            let mut fuzzy = fuzzy;
            let mut pos: usize = 0;
            while pos < fuzzy.len() && fuzzy[pos] != e
                invariant
                    pos <= fuzzy@.len(),
                    forall|j: int| 0 <= j < pos ==> fuzzy@[j] != e,
                decreases fuzzy@.len() - pos,
            {
                pos += 1;
            }
            let ghost f0 = fuzzy@;
            proof {
                lemma_without_first(f0, e, pos as int);
            }
            if pos < fuzzy.len() {
                fuzzy.remove(pos);
            }
            fuzzy.insert(0, e);
            proof {
                assert(fuzzy@ =~= seq![e] + without_first(f0, e));
            }
            fuzzy
        },
    }
}

/// Dropping the first occurrence, found at `pos` (or nowhere, `pos` past the
/// end), removes exactly that element.
proof fn lemma_without_first(s: Seq<u32>, x: u32, pos: int)
    requires
        0 <= pos <= s.len(),
        forall|j: int| 0 <= j < pos ==> s[j] != x,
        pos < s.len() ==> s[pos] == x,
    ensures
        without_first(s, x) == (if pos < s.len() {
            s.remove(pos)
        } else {
            s
        }),
    decreases s.len(),
{
    if s.len() > 0 {
        if s[0] == x {
            assert(pos == 0);
            assert(s.drop_first() =~= s.remove(0));
        } else {
            lemma_without_first(s.drop_first(), x, pos - 1);
            if pos < s.len() {
                assert(seq![s[0]] + s.drop_first().remove(pos - 1) =~= s.remove(pos));
            } else {
                assert(seq![s[0]] + s.drop_first() =~= s);
            }
        }
    }
}

} // verus!
