//! Small helpers on slices.
use vstd::prelude::*;

verus! {

pub trait SliceExt {
    type Item;

    /// The items, in order.
    spec fn items(&self) -> Seq<Self::Item>;

    /// Mutable references to two different items of a slice.
    fn get_two_mut(&mut self, index0: usize, index1: usize) -> (r: (&mut Self::Item, &mut Self::Item))
        requires
            index0 != index1,
            index0 < old(self).items().len(),
            index1 < old(self).items().len(),
        ensures
            *r.0 == old(self).items()[index0 as int],
            *r.1 == old(self).items()[index1 as int],
            final(self).items() == old(self).items().update(index0 as int, *final(r.0)).update(
                index1 as int,
                *final(r.1),
            ),
    ;
}

impl<T> SliceExt for [T] {
    type Item = T;

    open spec fn items(&self) -> Seq<T> {
        self@
    }

    fn get_two_mut(&mut self, index0: usize, index1: usize) -> (r: (&mut T, &mut T)) {
        if index0 < index1 {
            let (a, b) = self.split_at_mut(index1);
            let x = &mut a[index0];
            let y = &mut b[0];
            (x, y)
        } else {
            let (a, b) = self.split_at_mut(index0);
            let y = &mut a[index1];
            let x = &mut b[0];
            (x, y)
        }
    }
}

} // verus!
