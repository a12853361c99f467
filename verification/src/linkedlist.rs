//! A singly linked stack with owned nodes.

use vstd::prelude::*;

verus! {

/// A singly linked list; pushes and pops happen at the head.
pub struct List<T> {
    head: Link<T>,
}

type Link<T> = Option<Box<Node<T>>>;

struct Node<T> {
    data: T,
    next: Link<T>,
}

/// The sequence of values a chain of nodes holds, head first.
spec fn link_view<T>(l: Link<T>) -> Seq<T>
    decreases l,
{
    match l {
        None => Seq::empty(),
        Some(node) => seq![node.data] + link_view(node.next),
    }
}

impl<T> View for List<T> {
    type V = Seq<T>;

    /// The values of the list, head first.
    closed spec fn view(&self) -> Seq<T> {
        link_view(self.head)
    }
}

impl<T> List<T> {
    /// Constructs an empty list.
    pub fn new() -> (l: Self)
        ensures
            l@ == Seq::<T>::empty(),
    {
        List { head: None }
    }

    /// Pushes a value at the head.
    pub fn push(&mut self, data: T)
        ensures
            final(self)@ == seq![data] + old(self)@,
    {
        let new_head = Some(Box::new(Node { data, next: self.head.take() }));
        self.head = new_head;
    }

    /// Pops the head value, if any.
    pub fn pop(&mut self) -> (r: Option<T>)
        ensures
            old(self)@.len() == 0 ==> r is None && final(self)@ == old(self)@,
            old(self)@.len() > 0 ==> r == Some(old(self)@[0]) && final(self)@ == old(
                self,
            )@.skip(1),
    {
        match self.head.take() {
            None => None,
            Some(boxed_node) => {
                let node = *boxed_node;
                self.head = node.next;
                proof {
                    assert(final(self)@ =~= old(self)@.skip(1));
                }
                Some(node.data)
            },
        }
    }

    /// Returns a reference to the head value, if any.
    pub fn peek(&self) -> (r: Option<&T>)
        ensures
            self@.len() == 0 ==> r is None,
            self@.len() > 0 ==> r is Some && *r.unwrap() == self@[0],
    {
        match &self.head {
            None => None,
            Some(boxed_node) => Some(&boxed_node.data),
        }
    }

    /// Turns the list into an iterator that yields its values head first.
    pub fn into_iter(self) -> (it: IntoIter<T>)
        ensures
            it.remaining() == self@,
    {
        IntoIter(self)
    }

    /// Returns an iterator borrowing the list, yielding references head
    /// first.
    pub fn iter(&self) -> (it: Iter<T>)
        ensures
            it.remaining() == self@,
    {
        Iter {
            next: match &self.head {
                None => None,
                Some(boxed_node) => Some(&**boxed_node),
            },
        }
    }
}

/// A consuming iterator over a list's values, head first.
pub struct IntoIter<T>(List<T>);

impl<T> IntoIter<T> {
    /// The values the iterator has yet to yield.
    pub closed spec fn remaining(self) -> Seq<T> {
        self.0@
    }

    /// Yields the next value, or `None` when exhausted.
    pub fn next(&mut self) -> (r: Option<T>)
        ensures
            old(self).remaining().len() == 0 ==> r is None && final(self).remaining() == old(
                self,
            ).remaining(),
            old(self).remaining().len() > 0 ==> r == Some(old(self).remaining()[0])
                && final(self).remaining() == old(self).remaining().skip(1),
    {
        self.0.pop()
    }
}

/// A borrowing iterator over a list's values, head first.
pub struct Iter<'a, T> {
    next: Option<&'a Node<T>>,
}

impl<'a, T> Iter<'a, T> {
    /// The values the iterator has yet to yield.
    pub closed spec fn remaining(self) -> Seq<T> {
        match self.next {
            None => Seq::empty(),
            Some(node) => seq![node.data] + link_view(node.next),
        }
    }

    /// Yields a reference to the next value, or `None` when exhausted.
    pub fn next(&mut self) -> (r: Option<&'a T>)
        ensures
            old(self).remaining().len() == 0 ==> r is None && final(self).remaining() == old(
                self,
            ).remaining(),
            old(self).remaining().len() > 0 ==> r is Some && *r.unwrap() == old(
                self,
            ).remaining()[0] && final(self).remaining() == old(self).remaining().skip(1),
    {
        match self.next {
            None => None,
            Some(node) => {
                self.next = match &node.next {
                    None => None,
                    Some(boxed_node) => Some(&**boxed_node),
                };
                proof {
                    assert(final(self).remaining() =~= old(self).remaining().skip(1));
                }
                Some(&node.data)
            },
        }
    }
}

} // verus!
