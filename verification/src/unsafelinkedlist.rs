//! A queue: values enter at the back and leave at the front. A linked
//! representation would reach its tail through a raw pointer, which cannot
//! be verified, so the storage is a contiguous buffer with the same
//! interface and behaviour.

use vstd::prelude::*;

verus! {

/// A first-in, first-out list of values.
pub struct List<T> {
    items: Vec<T>,
}

impl<T> View for List<T> {
    type V = Seq<T>;

    /// The values of the list, front first.
    closed spec fn view(&self) -> Seq<T> {
        self.items@
    }
}

impl<T> List<T> {
    /// Constructs an empty list.
    pub fn new() -> (l: Self)
        ensures
            l@ == Seq::<T>::empty(),
    {
        List { items: Vec::new() }
    }

    /// Pushes a value at the back.
    pub fn push_back(&mut self, data: T)
        ensures
            final(self)@ == old(self)@.push(data),
    {
        self.items.push(data);
    }

    /// Pops the front value, if any.
    pub fn pop_front(&mut self) -> (r: Option<T>)
        ensures
            old(self)@.len() == 0 ==> r is None && final(self)@ == old(self)@,
            old(self)@.len() > 0 ==> r == Some(old(self)@[0]) && final(self)@ == old(
                self,
            )@.skip(1),
    {
        if self.items.len() == 0 {
            None
        } else {
            let r = self.items.remove(0);
            proof {
                assert(final(self)@ =~= old(self)@.skip(1));
            }
            Some(r)
        }
    }

    /// Returns an iterator borrowing the list, yielding references front
    /// first.
    pub fn iter(&self) -> (it: Iter<T>)
        ensures
            it.remaining() == self@,
    {
        let it = Iter { items: &self.items, pos: 0 };
        proof {
            assert(it.remaining() =~= self@);
        }
        it
    }

    /// Turns the list into an iterator that yields its values front first.
    pub fn into_iter(self) -> (it: IntoIter<T>)
        ensures
            it.remaining() == self@,
    {
        IntoIter(self)
    }
}

/// A borrowing iterator over a list's values, front first.
pub struct Iter<'a, T> {
    items: &'a Vec<T>,
    pos: usize,
}

impl<'a, T> Iter<'a, T> {
    /// The values the iterator has yet to yield.
    pub closed spec fn remaining(self) -> Seq<T> {
        self.items@.skip(self.pos as int)
    }

    /// The iterator has not run past its backing values.
    pub closed spec fn inv(self) -> bool {
        self.pos <= self.items@.len()
    }

    /// Yields a reference to the next value, or `None` when exhausted.
    pub fn next(&mut self) -> (r: Option<&'a T>)
        requires
            old(self).inv(),
        ensures
            final(self).inv(),
            old(self).remaining().len() == 0 ==> r is None && final(self).remaining() == old(
                self,
            ).remaining(),
            old(self).remaining().len() > 0 ==> r is Some && *r.unwrap() == old(
                self,
            ).remaining()[0] && final(self).remaining() == old(self).remaining().skip(1),
    {
        if self.pos < self.items.len() {
            let r = &self.items[self.pos];
            self.pos = self.pos + 1;
            proof {
                assert(final(self).remaining() =~= old(self).remaining().skip(1));
            }
            Some(r)
        } else {
            None
        }
    }
}

/// A consuming iterator over a list's values, front first.
pub struct IntoIter<T>(List<T>);

impl<T> IntoIter<T> {
    /// The values the iterator has yet to yield.
    pub closed spec fn remaining(self) -> Seq<T> {
        self.0@
    }

    /// Yields the next value, or `None` when exhausted.
    pub fn next(&mut self) -> (r: Option<T>)
        ensures
            old(self).remaining().len() == 0 ==> r is None && final(self).remaining() == old(
                self,
            ).remaining(),
            old(self).remaining().len() > 0 ==> r == Some(old(self).remaining()[0])
                && final(self).remaining() == old(self).remaining().skip(1),
    {
        self.0.pop_front()
    }
}

} // verus!
