use std::rc::Rc;
use vstd::prelude::*;

verus! {

/// Calls `Rc::clone` of std. Its contract is taken on trust: the pointer
/// that comes back shares the allocation of `rc`, so it points to the very
/// value that `rc` points to. Nothing is copied.
#[verifier::external_body]
fn share<T>(rc: &Rc<T>) -> (shared: Rc<T>)
    ensures
        shared == *rc,
{
    Rc::clone(rc)
}

/// A link to the rest of a list, shared among the lists that end alike.
pub type Link<T> = Option<Rc<Node<T>>>;

/// An element of a [`List`] and the link to the elements behind it.
pub struct Node<T> {
    elem: T,
    next: Link<T>,
}

impl<T> Node<T> {
    /// The elements from this node on.
    pub closed spec fn chain(self) -> Seq<T>
        decreases self,
    {
        seq![self.elem] + match self.next {
            Some(rest) => rest.chain(),
            None => Seq::empty(),
        }
    }
}

/// An immutable singly linked list. A list made from another one shares
/// its nodes.
pub struct List<T> {
    head: Link<T>,
}

impl<T> View for List<T> {
    type V = Seq<T>;

    /// The elements, the first one first.
    closed spec fn view(&self) -> Seq<T> {
        match self.head {
            Some(node) => node.chain(),
            None => Seq::empty(),
        }
    }
}

impl<T> List<T> {
    /// The empty list.
    pub fn new() -> (list: Self)
        ensures
            list@ == Seq::<T>::empty(),
    {
        List { head: None }
    }

    /// A list with `elem` in front of the elements of this one.
    pub fn append(&self, elem: T) -> (list: Self)
        ensures
            list@ == seq![elem] + self@,
    {
        let next = match &self.head {
            Some(node) => Some(share(node)),
            None => None,
        };
        let new_node = Node { elem, next };
        List { head: Some(Rc::new(new_node)) }
    }

    /// A list of the elements behind the first; empty for an empty list.
    pub fn tail(&self) -> (list: Self)
        ensures
            list@ == (if self@.len() > 0 { self@.drop_first() } else { Seq::empty() }),
    {
        let head = match &self.head {
            Some(node) => match &node.next {
                Some(rest) => Some(share(rest)),
                None => None,
            },
            None => None,
        };
        List { head }
    }

    /// The first element, if there is one.
    pub fn head(&self) -> (elem: Option<&T>)
        ensures
            elem == (if self@.len() > 0 { Some(&self@[0]) } else { None }),
    {
        match &self.head {
            Some(node) => Some(&node.elem),
            None => None,
        }
    }

    /// An iterator over the elements, the first one first.
    pub fn iter<'a>(&'a self) -> (iter: Iter<'a, T>)
        ensures
            iter@ == self@,
    {
        Iter {
            next: match &self.head {
                Some(node) => Some(&**node),
                None => None,
            },
        }
    }
}

/// A position in a [`List`]: the elements from there on are still to come.
pub struct Iter<'a, T: 'a> {
    next: Option<&'a Node<T>>,
}

impl<'a, T> View for Iter<'a, T> {
    type V = Seq<T>;

    /// The elements still to come, the next one first.
    closed spec fn view(&self) -> Seq<T> {
        match self.next {
            Some(node) => node.chain(),
            None => Seq::empty(),
        }
    }
}

impl<'a, T> Iter<'a, T> {
    /// Hands out the next element and moves on; `None` at the end.
    pub fn next(&mut self) -> (elem: Option<&'a T>)
        ensures
            old(self)@.len() == 0 ==> elem is None && final(self)@ == old(self)@,
            old(self)@.len() > 0 ==> ({
                &&& elem == Some(&old(self)@[0])
                &&& final(self)@ == old(self)@.drop_first()
            }),
    {
        match self.next {
            Some(node) => {
                self.next = match &node.next {
                    Some(rest) => Some(&**rest),
                    None => None,
                };
                Some(&node.elem)
            },
            None => None,
        }
    }
}

} // verus!
