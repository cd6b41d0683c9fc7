//! A count of how often each value occurs, used to compare how many distinct
//! first and second ends the stored links have.
use vstd::prelude::*;
use std::collections::HashMap;

verus! {

/// How often `k` occurs in `s`.
pub open spec fn occurrences(s: Seq<u32>, k: u32) -> nat
    decreases s.len(),
{
    if s.len() == 0 {
        0
    } else {
        occurrences(s.drop_last(), k) + if s.last() == k {
            1nat
        } else {
            0nat
        }
    }
}

/// For each value seen, how many times it is there; values seen no more are
/// forgotten.
pub struct UniqueCounter {
    pub val: HashMap<u32, u32>,
}

impl UniqueCounter {
    /// Every value kept is there at least once.
    pub open spec fn wf(&self) -> bool {
        forall|k: u32| #[trigger] self.val@.contains_key(k) ==> self.val@[k] > 0
    }

    /// Counts the values of `items`.
    pub fn from_iter(items: &[u32]) -> (c: UniqueCounter)
        requires
            items@.len() <= u32::MAX,
        ensures
            c.wf(),
            forall|k: u32| #[trigger] c.val@.contains_key(k) <==> occurrences(items@, k) > 0,
            forall|k: u32| c.val@.contains_key(k) ==> #[trigger] c.val@[k] == occurrences(items@, k),
    {
        let mut val: HashMap<u32, u32> = HashMap::new();
        let mut i: usize = 0;
        while i < items.len()
            invariant
                i <= items@.len(),
                items@.len() <= u32::MAX,
                forall|k: u32| #[trigger] val@.contains_key(k) <==> occurrences(items@.take(i as int), k) > 0,
                forall|k: u32| val@.contains_key(k) ==> #[trigger] val@[k] == occurrences(items@.take(i as int), k),
            decreases items@.len() - i,
        {
            let ghost before = items@.take(i as int);
            let x = items[i];
            proof {
                assert(items@.take(i + 1).drop_last() =~= before);
                lemma_occurrences_bound(before, x);
            }
            let n: u32 = match val.get(&x) {
                Some(c) => *c,
                None => 0,
            };
            val.insert(x, n + 1);
            i += 1;
        }
        proof {
            assert(items@.take(i as int) =~= items@);
        }
        UniqueCounter { val }
    }

    /// The number of distinct values, as an `i32` (truncated, as `as` does).
    pub fn len(&self) -> (r: i32)
        ensures
            r == self.val@.len() as i32,
    {
        #[verifier::truncate]
        (self.val.len() as i32)
    }

    /// Takes one occurrence of `key` away, forgetting `key` at the last one.
    pub fn remove_one(&mut self, key: u32)
        requires
            old(self).wf(),
            old(self).val@.contains_key(key),
        ensures
            final(self).wf(),
            old(self).val@[key] > 1 ==> final(self).val@ == old(self).val@.insert(key, (old(self).val@[key] - 1) as u32),
            old(self).val@[key] == 1 ==> final(self).val@ == old(self).val@.remove(key),
    {
        let count: u32 = match self.val.get(&key) {
            Some(c) => *c,
            None => 0,
        };
        if count <= 1 {
            self.val.remove(&key);
        } else {
            self.val.insert(key, count - 1);
        }
    }

    /// Adds one occurrence of `key`.
    pub fn add_one(&mut self, key: u32)
        requires
            old(self).wf(),
            old(self).val@.contains_key(key) ==> old(self).val@[key] < u32::MAX,
        ensures
            final(self).wf(),
            final(self).val@ == old(self).val@.insert(
                key,
                if old(self).val@.contains_key(key) {
                    (old(self).val@[key] + 1) as u32
                } else {
                    1u32
                },
            ),
    {
        let count: u32 = match self.val.get(&key) {
            Some(c) => *c,
            None => 0,
        };
        self.val.insert(key, count + 1);
    }
}

proof fn lemma_occurrences_bound(s: Seq<u32>, k: u32)
    ensures
        occurrences(s, k) <= s.len(),
    decreases s.len(),
{
    if s.len() > 0 {
        lemma_occurrences_bound(s.drop_last(), k);
    }
}

} // verus!
