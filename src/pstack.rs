//! A persistent stack: pushing and popping give new stacks that share their
//! elements with the old one, which stays as it was.
use vstd::prelude::*;
use std::rc::Rc;

verus! {

struct Node<T> {
    data: Rc<T>,
    next: Option<Rc<Node<T>>>,
}

/// The elements from `n` down, top first.
spec fn items_of<T>(n: Option<Rc<Node<T>>>) -> Seq<T>
    decreases n,
{
    match n {
        Some(node) => seq![*node.data].add(items_of(node.next)),
        None => Seq::empty(),
    }
}

pub struct PStack<T> {
    head: Option<Rc<Node<T>>>,
    size: usize,
}

impl<T> View for PStack<T> {
    type V = Seq<T>;

    /// The elements, top first.
    closed spec fn view(&self) -> Seq<T> {
        items_of(self.head)
    }
}

impl<T> PStack<T> {
    pub closed spec fn wf(&self) -> bool {
        self.size == items_of(self.head).len()
    }

    /// An empty stack.
    pub fn new() -> (r: Self)
        ensures
            r.wf(),
            r@ == Seq::<T>::empty(),
    {
        PStack { head: None, size: 0 }
    }

    /// The stack with `value` on top of this one.
    pub fn push(&self, value: T) -> (r: Self)
        requires
            self.wf(),
            self@.len() < usize::MAX,
        ensures
            r.wf(),
            r@ == seq![value].add(self@),
    {
        let next = match &self.head {
            Some(h) => Some(h.clone()),
            None => None,
        };
        PStack { head: Some(Rc::new(Node { data: Rc::new(value), next })), size: self.size + 1 }
    }

    /// The top element and the stack below it, or `None` when empty.
    pub fn pop(&self) -> (r: Option<(Rc<T>, Self)>)
        requires
            self.wf(),
        ensures
            self@.len() == 0 <==> r is None,
            r matches Some((top, rest)) ==> rest.wf() && *top == self@[0] && rest@ == self@.drop_first(),
    {
        match &self.head {
            Some(head) => {
                let next = match &head.next {
                    Some(n) => Some(n.clone()),
                    None => None,
                };
                proof {
                    assert(self@.drop_first() =~= items_of(head.next));
                }
                Some((head.data.clone(), PStack { head: next, size: self.size - 1 }))
            },
            None => None,
        }
    }

    pub fn len(&self) -> (r: usize)
        requires
            self.wf(),
        ensures
            r == self@.len(),
    {
        self.size
    }

    pub fn is_empty(&self) -> (r: bool)
        requires
            self.wf(),
        ensures
            r == (self@.len() == 0),
    {
        self.size == 0
    }

    /// The elements, top first.
    pub fn iter(&self) -> (r: Vec<Rc<T>>)
        requires
            self.wf(),
        ensures
            r@.len() == self@.len(),
            forall|i: int| 0 <= i < r@.len() ==> *#[trigger] r@[i] == self@[i],
    {
        let mut r: Vec<Rc<T>> = Vec::new();
        let mut cur: Option<Rc<Node<T>>> = match &self.head {
            Some(h) => Some(h.clone()),
            None => None,
        };
        while cur.is_some()
            invariant
                self@ == r@.map_values(|x: Rc<T>| *x) + items_of(cur),
            decreases items_of(cur).len(),
        {
            let node = cur.unwrap();
            r.push(node.data.clone());
            cur = match &node.next {
                Some(n) => Some(n.clone()),
                None => None,
            };
        }
        r
    }
}

} // verus!
