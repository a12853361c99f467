//! A persistent, structurally shared list: appending or taking the tail
//! leaves the original list intact, and the two share their nodes.

use std::rc::Rc;
use vstd::prelude::*;

verus! {

/// A persistent singly linked list with shared nodes.
pub struct List<T> {
    head: Link<T>,
}

type Link<T> = Option<Rc<Node<T>>>;

struct Node<T> {
    data: T,
    next: Link<T>,
}

/// The sequence of values a chain of nodes holds, head first.
spec fn link_view<T>(l: Link<T>) -> Seq<T>
    decreases l,
{
    match l {
        None => Seq::empty(),
        Some(node) => seq![node.data] + link_view(node.next),
    }
}

impl<T> View for List<T> {
    type V = Seq<T>;

    /// The values of the list, head first.
    closed spec fn view(&self) -> Seq<T> {
        link_view(self.head)
    }
}

impl<T> List<T> {
    /// Constructs an empty list.
    pub fn new() -> (l: List<T>)
        ensures
            l@ == Seq::<T>::empty(),
    {
        List { head: None }
    }

    /// Returns a new list with `data` in front of this list's values; the
    /// receiver is unchanged and shares its nodes with the result.
    pub fn append(&self, data: T) -> (l: List<T>)
        ensures
            l@ == seq![data] + self@,
    {
        List {
            head: Some(
                Rc::new(
                    Node {
                        data,
                        next: match &self.head {
                            None => None,
                            Some(rc) => Some(rc.clone()),
                        },
                    },
                ),
            ),
        }
    }

    /// Returns the list without its head value; the empty list's tail is
    /// empty again.
    pub fn tail(&self) -> (l: List<T>)
        ensures
            self@.len() == 0 ==> l@ == Seq::<T>::empty(),
            self@.len() > 0 ==> l@ == self@.skip(1),
    {
        let l = List {
            head: match &self.head {
                None => None,
                Some(rc) => match &rc.next {
                    None => None,
                    Some(rc2) => Some(rc2.clone()),
                },
            },
        };
        proof {
            if self@.len() > 0 {
                assert(l@ =~= self@.skip(1));
            }
        }
        l
    }

    /// Returns a reference to the head value, if any.
    pub fn head(&self) -> (r: Option<&T>)
        ensures
            self@.len() == 0 ==> r is None,
            self@.len() > 0 ==> r is Some && *r.unwrap() == self@[0],
    {
        match &self.head {
            None => None,
            Some(rc) => Some(&rc.data),
        }
    }

    /// Returns an iterator borrowing the list, yielding references head
    /// first.
    pub fn iter(&self) -> (it: Iter<T>)
        ensures
            it.remaining() == self@,
    {
        Iter {
            next: match &self.head {
                None => None,
                Some(rc) => Some(&**rc),
            },
        }
    }
}

/// A borrowing iterator over a persistent list's values, head first.
pub struct Iter<'a, T> {
    next: Option<&'a Node<T>>,
}

impl<'a, T> Iter<'a, T> {
    /// The values the iterator has yet to yield.
    pub closed spec fn remaining(self) -> Seq<T> {
        match self.next {
            None => Seq::empty(),
            Some(node) => seq![node.data] + link_view(node.next),
        }
    }

    /// Yields a reference to the next value, or `None` when exhausted.
    pub fn next(&mut self) -> (r: Option<&'a T>)
        ensures
            old(self).remaining().len() == 0 ==> r is None && final(self).remaining() == old(
                self,
            ).remaining(),
            old(self).remaining().len() > 0 ==> r is Some && *r.unwrap() == old(
                self,
            ).remaining()[0] && final(self).remaining() == old(self).remaining().skip(1),
    {
        match self.next {
            None => None,
            Some(node) => {
                self.next = match &node.next {
                    None => None,
                    Some(rc) => Some(&**rc),
                };
                proof {
                    assert(final(self).remaining() =~= old(self).remaining().skip(1));
                }
                Some(&node.data)
            },
        }
    }
}

} // verus!
