//! A singly linked list that appends at the tail and pops from the tail.

use vstd::prelude::*;

verus! {

pub struct Node<T> {
    pub next: Option<Box<Node<T>>>,
    pub value: T,
}

impl<T> Node<T> {
    pub fn new(value: T) -> (n: Node<T>)
        ensures
            n.value == value,
            n.next.is_none(),
    {
        Node { value, next: None }
    }
}

/// The values of a chain of nodes, front to back.
pub open spec fn chain_seq<T>(t: Option<Box<Node<T>>>) -> Seq<T>
    decreases t,
{
    match t {
        None => Seq::empty(),
        Some(n) => seq![n.value] + chain_seq(n.next),
    }
}

pub struct LinkedList<T> {
    pub head: Option<Box<Node<T>>>,
    pub size: usize,
}

impl<T> LinkedList<T> {
    /// The values held by the list, front to back.
    pub open spec fn values(self) -> Seq<T> {
        chain_seq(self.head)
    }

    /// The stored size counts the values.
    pub open spec fn wf(self) -> bool {
        self.size == self.values().len()
    }

    pub fn new() -> (l: LinkedList<T>)
        ensures
            l.wf(),
            l.values() == Seq::<T>::empty(),
            l.size == 0,
    {
        LinkedList { head: None, size: 0 }
    }

    /// Appends a value at the back of the list.
    pub fn push(&mut self, value: T)
        requires
            old(self).wf(),
            old(self).size < usize::MAX,
        ensures
            final(self).wf(),
            final(self).values() == old(self).values().push(value),
            final(self).size == old(self).size + 1,
    {
        self.size = self.size + 1;
        append_node(&mut self.head, value);
    }

    /// Removes and returns the value at the back of the list, or `None`
    /// when the list is empty.
    pub fn pop(&mut self) -> (r: Option<T>)
        requires
            old(self).wf(),
        ensures
            final(self).wf(),
            old(self).size == 0 ==> r.is_none() && *final(self) == *old(self),
            old(self).size > 0 ==> (r == Some(old(self).values().last()) && final(self).values()
                == old(self).values().drop_last() && final(self).size == old(self).size - 1),
    {
        if self.size == 0 {
            return None;
        }
        self.size = self.size - 1;
        let v = pop_last(&mut self.head);
        Some(v)
    }
}

fn append_node<T>(t: &mut Option<Box<Node<T>>>, value: T)
    ensures
        chain_seq(*final(t)) == chain_seq(*old(t)).push(value),
    decreases *old(t),
{
    match t.take() {
        None => {
            *t = Some(Box::new(Node { value, next: None }));
            proof {
                assert(chain_seq(*t) =~= chain_seq(*old(t)).push(value));
            }
        },
        Some(mut b) => {
            append_node(&mut b.next, value);
            *t = Some(b);
            proof {
                assert(chain_seq(*t) =~= chain_seq(*old(t)).push(value));
            }
        },
    }
}

fn pop_last<T>(t: &mut Option<Box<Node<T>>>) -> (r: T)
    requires
        old(t).is_some(),
    ensures
        r == chain_seq(*old(t)).last(),
        chain_seq(*final(t)) == chain_seq(*old(t)).drop_last(),
    decreases *old(t),
{
    let b = t.take().unwrap();
    let Node { value, next } = *b;
    match next {
        None => {
            *t = None;
            proof {
                assert(chain_seq(*t) =~= chain_seq(*old(t)).drop_last());
            }
            value
        },
        Some(nbox) => {
            let mut next: Option<Box<Node<T>>> = Some(nbox);
            let r = pop_last(&mut next);
            *t = Some(Box::new(Node { value, next }));
            proof {
                assert(chain_seq(*t) =~= chain_seq(*old(t)).drop_last());
            }
            r
        },
    }
}

} // verus!
