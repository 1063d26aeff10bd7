use crate::errors::Error;
use vstd::prelude::*;
use vstd::std_specs::cmp::PartialEqSpec;

verus! {

/// Whether some element of `s` compares equal to `item`.
pub open spec fn contains_eq<T: PartialEq>(s: Seq<T>, item: T) -> bool {
    exists|i: int| 0 <= i < s.len() && (#[trigger] s[i]).eq_spec(&item)
}

/// `s` with every element comparing equal to `item` dropped.
pub open spec fn without_eq<T: PartialEq>(s: Seq<T>, item: T) -> Seq<T>
    decreases s.len(),
{
    if s.len() == 0 {
        Seq::empty()
    } else if s[0].eq_spec(&item) {
        without_eq(s.skip(1), item)
    } else {
        seq![s[0]] + without_eq(s.skip(1), item)
    }
}

/// A set that keeps its elements in insertion order and refuses duplicates.
#[derive(Clone, Debug, Default, Hash)]
pub struct OrderedHashSet<T> {
    data: Vec<T>,
}

/// A cursor over an [`OrderedHashSet`], handing out its elements in
/// insertion order.
pub struct OrderedHashSetIterator<T> {
    set: OrderedHashSet<T>,
    iter: usize,
}

impl<T> OrderedHashSet<T> {
    /// The stored elements, in insertion order.
    pub closed spec fn elems(&self) -> Seq<T> {
        self.data@
    }
}

impl<T> OrderedHashSetIterator<T> {
    /// The elements walked over.
    pub closed spec fn elems(&self) -> Seq<T> {
        self.set.data@
    }

    /// The cursor position.
    pub closed spec fn at(&self) -> int {
        self.iter as int
    }
}

impl<T: PartialEq + Copy> OrderedHashSet<T> {
    /// Append an element; refuses one already present, comparing by `==`,
    /// and leaves the set unchanged in that case.
    pub fn insert(&mut self, item: T) -> (r: Result<T, Error>)
        ensures
            T::obeys_eq_spec() ==> {
                &&& contains_eq(old(self).elems(), item) ==> r is Err && final(self).elems()
                    == old(self).elems()
                &&& !contains_eq(old(self).elems(), item) ==> r == Ok::<T, Error>(item)
                    && final(self).elems() == old(self).elems().push(item)
            },
    {
        let mut i: usize = 0;
        while i < self.data.len()
            invariant
                i <= self.data@.len(),
                T::obeys_eq_spec() ==> forall|j: int|
                    0 <= j < i ==> !(#[trigger] self.data@[j]).eq_spec(&item),
            decreases self.data@.len() - i,
        {
            if self.data[i] == item {
                return Err(Error::DuplicateIdentifier);
            }
            i = i + 1;
        }
        proof {
            if T::obeys_eq_spec() && contains_eq(self.data@, item) {
                let w = choose|w: int|
                    0 <= w < self.data@.len() && (#[trigger] self.data@[w]).eq_spec(&item);
            }
        }
        self.data.push(item);
        Ok(item)
    }

    /// Drop every element comparing equal to `item`, keeping the order of
    /// the rest.
    pub fn delete(&mut self, item: T)
        ensures
            T::obeys_eq_spec() ==> final(self).elems() == without_eq(old(self).elems(), item),
    {
        let ghost orig = self.data@;
        let mut out: Vec<T> = Vec::new();
        let mut i: usize = 0;
        proof {
            assert(orig.skip(0) =~= orig);
            assert(out@ + without_eq(orig, item) =~= without_eq(orig, item));
        }
        while i < self.data.len()
            invariant
                i <= self.data@.len(),
                self.data@ == orig,
                T::obeys_eq_spec() ==> without_eq(orig, item) == out@ + without_eq(
                    orig.skip(i as int),
                    item,
                ),
            decreases self.data@.len() - i,
        {
            let keep = !(self.data[i] == item);
            proof {
                if T::obeys_eq_spec() {
                    assert(orig.skip(i as int)[0] == orig[i as int]);
                    assert(orig.skip(i as int).skip(1) =~= orig.skip(i + 1));
                }
            }
            if keep {
                out.push(self.data[i]);
            }
            proof {
                if T::obeys_eq_spec() {
                    if keep {
                        assert(out@ + without_eq(orig.skip(i + 1), item) =~= without_eq(
                            orig,
                            item,
                        ));
                    }
                }
            }
            i = i + 1;
        }
        proof {
            if T::obeys_eq_spec() {
                assert(orig.skip(orig.len() as int) =~= Seq::<T>::empty());
                assert(out@ =~= without_eq(orig, item));
            }
        }
        self.data = out;
    }

    /// The elements as a vector, in insertion order.
    pub fn to_vec(&self) -> (r: Vec<T>)
        ensures
            r@ == self.elems(),
    {
        let mut out: Vec<T> = Vec::new();
        let mut i: usize = 0;
        while i < self.data.len()
            invariant
                i <= self.data@.len(),
                out@ == self.data@.take(i as int),
            decreases self.data@.len() - i,
        {
            out.push(self.data[i]);
            assert(out@ =~= self.data@.take(i + 1));
            i = i + 1;
        }
        assert(out@ =~= self.data@);
        out
    }

    /// A cursor over the elements, in insertion order.
    pub fn iter(&self) -> (r: OrderedHashSetIterator<T>)
        ensures
            r.elems() == self.elems(),
            r.at() == 0,
    {
        OrderedHashSetIterator { set: OrderedHashSet { data: self.to_vec() }, iter: 0 }
    }
}

impl<T: Copy> OrderedHashSetIterator<T> {
    /// The next element, advancing the cursor; `None` once past the end.
    pub fn next(&mut self) -> (r: Option<T>)
        ensures
            old(self).at() < old(self).elems().len() ==> r == Some(
                old(self).elems()[old(self).at()],
            ) && final(self).at() == old(self).at() + 1,
            old(self).at() >= old(self).elems().len() ==> r is None && final(self).at() == old(
                self,
            ).at(),
            final(self).elems() == old(self).elems(),
    {
        if self.iter < self.set.data.len() {
            let v = self.set.data[self.iter];
            self.iter = self.iter + 1;
            Some(v)
        } else {
            None
        }
    }
}

} // verus!
