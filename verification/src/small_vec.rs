//! A vector that keeps up to 64 bytes of elements in a fixed-capacity [`StackVec`] and
//! moves them to an unbounded `Vec` when it grows past that.
use vstd::prelude::*;
use crate::stack_vec::{seq_eq_spec, slices_eq, stack_capacity, stack_layout_ok, StackVec, StackVecIntoIter};
use vstd::std_specs::cmp::PartialEqSpec;
use vstd::std_specs::iter::IteratorSpec;

verus! {

/// A vector whose elements are on the heap or, while they fit, in a [`StackVec`].
#[derive(Clone, Debug)]
pub enum SmallVec<A> {
    Heap(Vec<A>),
    Stack(StackVec<A>),
}

/// A consuming iterator over a [`SmallVec`].
#[derive(Debug)]
pub enum SmallVecIntoIter<A> {
    Heap(Vec<A>),
    Stack(StackVecIntoIter<A>),
}

impl<A> View for SmallVec<A> {
    type V = Seq<A>;

    open spec fn view(&self) -> Seq<A> {
        match self {
            SmallVec::Heap(h) => h@,
            SmallVec::Stack(s) => s@,
        }
    }
}

impl<A> View for SmallVecIntoIter<A> {
    type V = Seq<A>;

    open spec fn view(&self) -> Seq<A> {
        match self {
            SmallVecIntoIter::Heap(h) => h@.reverse(),
            SmallVecIntoIter::Stack(s) => s@,
        }
    }
}

impl<A> SmallVecIntoIter<A> {
    /// The next element, or `None` when all have been handed out.
    pub fn next(&mut self) -> (r: Option<A>)
        ensures
            old(self)@.len() == 0 ==> r is None && final(self)@ == old(self)@,
            old(self)@.len() > 0 ==> r == Some(old(self)@[0]) && final(self)@ == old(self)@.drop_first(),
    {
        match self {
            SmallVecIntoIter::Heap(h) => {
                let r = h.pop();
                proof {
                    if old(self)@.len() > 0 {
                        assert(final(self)@ =~= old(self)@.drop_first());
                    }
                }
                r
            },
            SmallVecIntoIter::Stack(s) => s.next(),
        }
    }
}

impl<A> SmallVec<A> {
    /// A stack-held vector is well formed.
    pub open spec fn wf(&self) -> bool {
        match self {
            SmallVec::Heap(_) => true,
            SmallVec::Stack(s) => s.wf(),
        }
    }

    /// The elements.
    pub fn as_slice(&self) -> (r: &[A])
        ensures
            r@ == self@,
    {
        match self {
            SmallVec::Heap(h) => h.as_slice(),
            SmallVec::Stack(s) => s.as_slice(),
        }
    }

    /// The elements, mutably; the vector holds what the slice holds when it is released.
    pub fn as_mut_slice(&mut self) -> (r: &mut [A])
        ensures
            r@ == old(self)@,
            final(self)@ == final(r)@,
            *final(self) is Stack == *old(self) is Stack,
    {
        match self {
            SmallVec::Heap(h) => h.as_mut_slice(),
            SmallVec::Stack(s) => s.as_mut_slice(),
        }
    }

    /// Appends an element. A full stack-held vector moves to the heap first.
    pub fn push(&mut self, value: A)
        requires
            old(self).wf(),
        ensures
            final(self).wf(),
            final(self)@ == old(self)@.push(value),
            *final(self) is Stack <==> (*old(self) is Stack && old(self)@.len() < stack_capacity::<A>()),
    {
        let full = match self {
            SmallVec::Stack(stack_vec) => !stack_vec.may_push(),
            SmallVec::Heap(_) => false,
        };
        if full {
            if let SmallVec::Stack(stack_vec) = self {
                let mut output = Vec::with_capacity(stack_vec.len() + 1);
                stack_vec.drain_to_vec(&mut output);
                *self = SmallVec::Heap(output);
            }
        }
        match self {
            SmallVec::Heap(h) => h.push(value),
            SmallVec::Stack(s) => s.push(value),
        }
    }

    /// Moves all the elements of `other` to the end of `self`. Two stack-held vectors whose
    /// elements fit together stay on the stack; otherwise `self` moves to the heap.
    pub fn append(&mut self, other: &mut SmallVec<A>)
        requires
            old(self).wf(),
            old(other).wf(),
        ensures
            final(self).wf(),
            final(other).wf(),
            final(self)@ == old(self)@ + old(other)@,
            final(other)@ == Seq::<A>::empty(),
            *final(self) is Stack <==> (*old(self) is Stack && *old(other) is Stack && old(self)@.len() + old(other)@.len() <= stack_capacity::<A>()),
            *final(other) is Stack == *old(other) is Stack,
    {
        let happy = match (&*self, &*other) {
            (SmallVec::Stack(l), SmallVec::Stack(r)) => l.may_append(r.len()),
            _ => false,
        };
        if happy {
            match self {
                SmallVec::Stack(l) => match other {
                    SmallVec::Stack(r) => {
                        l.append(r);
                        return ;
                    },
                    SmallVec::Heap(_) => {},
                },
                SmallVec::Heap(_) => {},
            }
        }
        if let SmallVec::Stack(l) = self {
            let mut output = Vec::with_capacity(l.len());
            l.drain_to_vec(&mut output);
            *self = SmallVec::Heap(output);
        }
        match self {
            SmallVec::Heap(l) => match other {
                SmallVec::Heap(r) => l.append(r),
                SmallVec::Stack(r) => r.drain_to_vec(l),
            },
            SmallVec::Stack(_) => {},
        }
    }

    /// An iterator over the elements.
    pub fn iter(&self) -> (it: std::slice::Iter<'_, A>)
        ensures
            vstd::std_specs::slice::into_iter_elts(it) == self@,
    {
        match self {
            SmallVec::Heap(h) => {
                let it = h.as_slice().iter();
                proof {
                    assert(vstd::std_specs::slice::into_iter_elts(it) =~= self@);
                }
                it
            },
            SmallVec::Stack(s) => s.iter(),
        }
    }

    /// An iterator over the elements, mutably: it hands out a reference to each element,
    /// first to last, and the vector ends holding what was written through them.
    pub fn iter_mut(&mut self) -> (it: std::slice::IterMut<'_, A>)
        ensures
            IteratorSpec::obeys_prophetic_iter_laws(&it),
            IteratorSpec::remaining(&it).len() == old(self)@.len(),
            final(self)@.len() == old(self)@.len(),
            forall|i: int| 0 <= i < old(self)@.len() ==> *#[trigger] IteratorSpec::remaining(&it)[i] == old(self)@[i],
            forall|i: int|
                0 <= i < old(self)@.len() ==> final(self)@[i] == *final(#[trigger] IteratorSpec::remaining(&it)[i]),
            *final(self) is Stack == *old(self) is Stack,
    {
        match self {
            SmallVec::Heap(h) => crate::stack_vec::slice_iter_mut(h),
            SmallVec::Stack(s) => s.iter_mut(),
        }
    }

    /// A consuming iterator over the elements, first to last.
    pub fn into_iter(self) -> (it: SmallVecIntoIter<A>)
        ensures
            it@ == self@,
    {
        match self {
            SmallVec::Heap(h) => {
                let mut rev: Vec<A> = Vec::new();
                let mut data = h;
                let ghost all = data@;
                while data.len() > 0
                    invariant
                        all == data@ + rev@.reverse(),
                    decreases data.len(),
                {
                    let x = data.pop().unwrap();
                    proof {
                        assert(data@ + rev@.push(x).reverse() =~= all);
                    }
                    rev.push(x);
                }
                proof {
                    assert(all =~= rev@.reverse());
                }
                SmallVecIntoIter::Heap(rev)
            },
            SmallVec::Stack(s) => SmallVecIntoIter::Stack(s.into_iter()),
        }
    }

    /// Number of elements.
    pub fn len(&self) -> (n: usize)
        ensures
            n == self@.len(),
    {
        match self {
            SmallVec::Heap(h) => h.len(),
            SmallVec::Stack(s) => s.len(),
        }
    }

    /// A vector holding `items`, on the stack when the upper bound that the producer of the
    /// items gave (`upper_bound`, `None` for no bound) fits in the stack storage.
    pub fn from_iter(items: Vec<A>, upper_bound: Option<usize>) -> (r: Self)
        requires
            upper_bound is Some ==> stack_layout_ok::<A>(),
            upper_bound matches Some(m) ==> items@.len() <= m,
        ensures
            r.wf(),
            r@ == items@,
            r is Stack <==> (upper_bound matches Some(m) && m <= stack_capacity::<A>()),
    {
        let fits = match upper_bound {
            Some(max) => max <= StackVec::<A>::static_capacity(),
            None => false,
        };
        if fits {
            SmallVec::Stack(StackVec::from_iter(items))
        } else {
            SmallVec::Heap(items)
        }
    }

    /// Appends `items`, in order. A stack-held vector stays on the stack when the upper
    /// bound that the producer of the items gave (`upper_bound`, `None` for no bound) fits in
    /// the room left; otherwise it moves to the heap first.
    pub fn extend(&mut self, items: Vec<A>, upper_bound: Option<usize>)
        requires
            old(self).wf(),
            upper_bound matches Some(m) ==> items@.len() <= m,
        ensures
            final(self).wf(),
            final(self)@ == old(self)@ + items@,
            *final(self) is Stack <==> (*old(self) is Stack && (upper_bound matches Some(m) && old(self)@.len() + m <= stack_capacity::<A>())),
    {
        let max = match upper_bound {
            Some(m) => m,
            None => usize::MAX,
        };
        let stays = match self {
            SmallVec::Stack(stack_vec) => stack_vec.may_append(max),
            SmallVec::Heap(_) => false,
        };
        if stays {
            if let SmallVec::Stack(stack_vec) = self {
                stack_vec.extend(items);
            }
        } else {
            if let SmallVec::Stack(stack_vec) = self {
                let mut output = Vec::new();
                stack_vec.drain_to_vec(&mut output);
                *self = SmallVec::Heap(output);
            }
            if let SmallVec::Heap(vec) = self {
                let mut items = items;
                vec.append(&mut items);
            }
        }
    }
}


impl<A: PartialEq> PartialEq for SmallVec<A> {
    fn eq(&self, other: &Self) -> (r: bool) {
        if self.len() != other.len() {
            return false;
        }
        slices_eq(self.as_slice(), other.as_slice())
    }
}

impl<A: PartialEq> vstd::std_specs::cmp::PartialEqSpecImpl for SmallVec<A> {
    open spec fn obeys_eq_spec() -> bool {
        <A as PartialEqSpec>::obeys_eq_spec()
    }

    open spec fn eq_spec(&self, other: &Self) -> bool {
        seq_eq_spec(self@, other@)
    }
}


impl<A> std::ops::Index<usize> for SmallVec<A> {
    type Output = A;

    fn index(&self, index: usize) -> (r: &A)
        ensures
            *r == self@[index as int],
    {
        match self {
            SmallVec::Heap(h) => &h[index],
            SmallVec::Stack(s) => &s[index],
        }
    }
}

impl<A> vstd::std_specs::core::IndexSpecImpl<usize> for SmallVec<A> {
    open spec fn index_req(&self, index: &usize) -> bool {
        *index < self@.len()
    }
}

} // verus!
