use vstd::prelude::*;

verus! {

/// One cell of a list: an element and the rest of the list after it.
struct ListNode<T> {
    element: T,
    next: Option<Box<ListNode<T>>>,
}

impl<T> ListNode<T> {
    /// The elements from this node to the end of the list, head first.
    spec fn seq_of(link: Option<Box<ListNode<T>>>) -> Seq<T>
        decreases link,
    {
        match link {
            None => Seq::empty(),
            Some(node) => seq![node.element].add(ListNode::<T>::seq_of(node.next)),
        }
    }
}

/// A singly-linked list that owns its elements; the head is the most
/// recently pushed element.
pub struct List<T> {
    length: usize,
    head: Option<Box<ListNode<T>>>,
}

impl<T> View for List<T> {
    type V = Seq<T>;

    /// The elements of the list, head first.
    closed spec fn view(&self) -> Seq<T> {
        ListNode::<T>::seq_of(self.head)
    }
}

impl<T> List<T> {
    #[verifier::type_invariant]
    spec fn length_matches(self) -> bool {
        self.length as int == ListNode::<T>::seq_of(self.head).len()
    }

    /// An empty list.
    pub fn new() -> (r: Self)
        ensures
            r@ == Seq::<T>::empty(),
    {
        List { length: 0, head: None }
    }

    pub fn is_empty(&self) -> (r: bool)
        ensures
            r == (self@.len() == 0),
    {
        proof {
            use_type_invariant(self);
        }
        self.head.is_none()
    }

    pub fn length(&self) -> (r: usize)
        ensures
            r as int == self@.len(),
    {
        proof {
            use_type_invariant(self);
        }
        self.length
    }

    /// Puts `x` in front of the list.
    pub fn push(&mut self, x: T)
        requires
            old(self)@.len() < usize::MAX,
        ensures
            final(self)@ == seq![x].add(old(self)@),
    {
        proof {
            use_type_invariant(&*self);
        }
        let mut cur = List::<T>::new();
        std::mem::swap(&mut cur, self);
        proof {
            use_type_invariant(&cur);
        }
        let List { length, head } = cur;
        let node = ListNode { element: x, next: head };
        *self = List { length: length + 1, head: Some(Box::new(node)) };
    }

    /// Takes the front element off the list, if there is one.
    pub fn pop(&mut self) -> (r: Option<T>)
        ensures
            old(self)@.len() == 0 ==> r.is_none() && final(self)@ == old(self)@,
            old(self)@.len() > 0 ==> r == Some(old(self)@[0]) && final(self)@ == old(self)@.drop_first(),
    {
        proof {
            use_type_invariant(&*self);
        }
        let mut cur = List::<T>::new();
        std::mem::swap(&mut cur, self);
        proof {
            use_type_invariant(&cur);
        }
        let List { length, head } = cur;
        match head {
            None => {
                *self = List { length, head: None };
                None
            },
            Some(node_box) => {
                let node = *node_box;
                proof {
                    assert(ListNode::<T>::seq_of(node.next) =~= old(self)@.drop_first());
                }
                *self = List { length: length - 1, head: node.next };
                Some(node.element)
            },
        }
    }

    /// The front element, if there is one.
    pub fn peek(&self) -> (r: Option<&T>)
        ensures
            self@.len() == 0 ==> r.is_none(),
            self@.len() > 0 ==> r == Some(&self@[0]),
    {
        match &self.head {
            None => None,
            Some(node_box) => Some(&node_box.element),
        }
    }

    /// The element at position `i`, counting from the front.
    pub fn get(&self, i: usize) -> (r: &T)
        requires
            i < self@.len(),
        ensures
            *r == self@[i as int],
    {
        let mut cur: &Option<Box<ListNode<T>>> = &self.head;
        let mut j: usize = 0;
        while j < i
            invariant
                j <= i,
                i < self@.len(),
                ListNode::<T>::seq_of(*cur) =~= self@.subrange(j as int, self@.len() as int),
            decreases i - j,
        {
            match cur {
                Some(node) => {
                    proof {
                        let rest = ListNode::<T>::seq_of(node.next);
                        assert(ListNode::<T>::seq_of(*cur) == seq![node.element].add(rest));
                        assert(rest =~= ListNode::<T>::seq_of(*cur).drop_first());
                    }
                    cur = &node.next;
                },
                None => {},
            }
            j = j + 1;
        }
        let node = cur.as_ref().unwrap();
        proof {
            assert(ListNode::<T>::seq_of(*cur) == seq![node.element].add(ListNode::<T>::seq_of(node.next)));
            assert(ListNode::<T>::seq_of(*cur)[0] == self@[i as int]);
        }
        &node.element
    }

    /// Reverses the list in place by moving each element onto a fresh list.
    pub fn reverse(&mut self)
        ensures
            final(self)@ == old(self)@.reverse(),
    {
        proof {
            use_type_invariant(&*self);
        }
        let ghost orig = self@;
        let mut rev = List::<T>::new();
        while !self.is_empty()
            invariant
                orig.len() <= usize::MAX,
                rev@.len() + self@.len() == orig.len(),
                rev@ == orig.subrange(0, rev@.len() as int).reverse(),
                self@ == orig.subrange(rev@.len() as int, orig.len() as int),
            decreases self@.len(),
        {
            let ghost before = rev@;
            let x = self.pop().unwrap();
            rev.push(x);
            proof {
                assert(rev@ =~= orig.subrange(0, rev@.len() as int).reverse());
                assert(self@ =~= orig.subrange(rev@.len() as int, orig.len() as int));
            }
        }
        proof {
            assert(rev@ =~= orig.reverse());
        }
        *self = rev;
    }

    /// Turns the list into a one-shot source of its elements, head first.
    pub fn into_iter(self) -> (r: IntoIter<T>)
        ensures
            r@ == self@,
    {
        IntoIter(self)
    }
}

/// A consuming walk over a list: each `next` pops the front element.
pub struct IntoIter<T>(List<T>);

impl<T> View for IntoIter<T> {
    type V = Seq<T>;

    /// The elements that are still to come, in order.
    closed spec fn view(&self) -> Seq<T> {
        self.0@
    }
}

impl<T> IntoIter<T> {
    pub fn next(&mut self) -> (r: Option<T>)
        ensures
            old(self)@.len() == 0 ==> r.is_none() && final(self)@ == old(self)@,
            old(self)@.len() > 0 ==> r == Some(old(self)@[0]) && final(self)@ == old(self)@.drop_first(),
    {
        self.0.pop()
    }
}

/// Popping right after pushing `x` gives back `x` and the list as it was.
pub proof fn lemma_push_then_pop<T>(s: Seq<T>, x: T)
    ensures
        (seq![x] + s).len() > 0,
        (seq![x] + s)[0] == x,
        (seq![x] + s).drop_first() == s,
{
    assert((seq![x] + s).drop_first() =~= s);
}

/// Reversing a list twice gives the list back.
pub proof fn lemma_reverse_twice<T>(s: Seq<T>)
    ensures
        s.reverse().reverse() == s,
{
    assert(s.reverse().reverse() =~= s);
}

/// A list built by pushing the elements of `xs` one by one holds them most
/// recent first: pushing `x` onto `xs` reversed gives `xs` then `x`, reversed.
pub proof fn lemma_push_order<T>(xs: Seq<T>, x: T)
    ensures
        seq![x] + xs.reverse() == xs.push(x).reverse(),
{
    assert(seq![x] + xs.reverse() =~= xs.push(x).reverse());
}

} // verus!
