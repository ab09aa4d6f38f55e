//! A vector with a fixed capacity of 64 bytes of elements.
use vstd::prelude::*;
use vstd::std_specs::cmp::PartialEqSpec;
use vstd::std_specs::iter::IteratorSpec;

verus! {

/// The mutable slice iterator of std.
#[verifier::external_type_specification]
#[verifier::external_body]
#[verifier::reject_recursive_types(T)]
pub struct ExIterMut<'a, T: 'a>(std::slice::IterMut<'a, T>);

/// An iterator over the elements of `v`, mutably. Trusted: it calls `<[A]>::iter_mut`, of
/// which this is stated: the iterator hands out, first to last, one mutable reference to
/// each element of `v` (and then nothing), and `v` ends holding the final values of those
/// references.
#[verifier::external_body]
pub(crate) fn slice_iter_mut<A>(v: &mut Vec<A>) -> (it: std::slice::IterMut<'_, A>)
    ensures
        IteratorSpec::obeys_prophetic_iter_laws(&it),
        IteratorSpec::remaining(&it).len() == old(v)@.len(),
        final(v)@.len() == old(v)@.len(),
        forall|i: int| 0 <= i < old(v)@.len() ==> *#[trigger] IteratorSpec::remaining(&it)[i] == old(v)@[i],
        forall|i: int|
            0 <= i < old(v)@.len() ==> final(v)@[i] == *final(#[trigger] IteratorSpec::remaining(&it)[i]),
{
    v.iter_mut()
}

/// Bytes of element storage of a [`StackVec`].
pub const STACK_BYTES: usize = 64;

/// The element types that a [`StackVec`] holds: not zero-sized, at most 64 bytes, and
/// aligned no more strictly than their size.
pub open spec fn stack_layout_ok<A>() -> bool {
    &&& 0 < vstd::layout::size_of::<A>() <= STACK_BYTES
    &&& vstd::layout::align_of::<A>() <= vstd::layout::size_of::<A>()
}

/// Number of elements that fit in the storage of a [`StackVec`].
pub open spec fn stack_capacity<A>() -> nat {
    STACK_BYTES as nat / vstd::layout::size_of::<A>()
}

/// A vector whose elements fit in 64 bytes.
#[derive(Clone, Debug)]
pub struct StackVec<A> {
    data: Vec<A>,
}

/// The elements of a [`StackVec`] that its iterator has not handed out yet.
#[derive(Debug)]
pub struct StackVecIntoIter<A> {
    rev: Vec<A>,
}

impl<A> View for StackVec<A> {
    type V = Seq<A>;

    closed spec fn view(&self) -> Seq<A> {
        self.data@
    }
}

impl<A> View for StackVecIntoIter<A> {
    type V = Seq<A>;

    closed spec fn view(&self) -> Seq<A> {
        self.rev@.reverse()
    }
}

impl<A> StackVec<A> {
    /// The element type is supported and the elements fit in the storage.
    pub open spec fn wf(&self) -> bool {
        &&& stack_layout_ok::<A>()
        &&& self@.len() <= stack_capacity::<A>()
    }

    /// An empty vector.
    pub fn new() -> (r: Self)
        requires
            stack_layout_ok::<A>(),
        ensures
            r.wf(),
            r@ == Seq::<A>::empty(),
    {
        StackVec { data: Vec::new() }
    }

    /// The elements.
    pub fn as_slice(&self) -> (r: &[A])
        ensures
            r@ == self@,
    {
        self.data.as_slice()
    }

    /// The elements, mutably; the vector holds what the slice holds when it is released.
    pub fn as_mut_slice(&mut self) -> (r: &mut [A])
        ensures
            r@ == old(self)@,
            final(self)@ == final(r)@,
    {
        self.data.as_mut_slice()
    }

    /// Appends an element.
    pub fn push(&mut self, value: A)
        requires
            old(self).wf(),
            old(self)@.len() < stack_capacity::<A>(),
        ensures
            final(self).wf(),
            final(self)@ == old(self)@.push(value),
    {
        self.data.push(value);
    }

    /// Number of elements that fit in a vector of this element type.
    pub fn static_capacity() -> (n: usize)
        requires
            stack_layout_ok::<A>(),
        ensures
            n == stack_capacity::<A>(),
    {
        STACK_BYTES / core::mem::size_of::<A>()
    }

    /// Number of elements that fit in the vector.
    pub fn capacity(&self) -> (n: usize)
        requires
            self.wf(),
        ensures
            n == stack_capacity::<A>(),
    {
        STACK_BYTES / core::mem::size_of::<A>()
    }

    /// Is there room for one more element?
    pub fn may_push(&self) -> (b: bool)
        requires
            self.wf(),
        ensures
            b == (self@.len() < stack_capacity::<A>()),
    {
        self.data.len() < self.capacity()
    }

    /// Is there room for `other_len` more elements?
    pub fn may_append(&self, other_len: usize) -> (b: bool)
        requires
            self.wf(),
        ensures
            b == (self@.len() + other_len <= stack_capacity::<A>()),
    {
        self.data.len().saturating_add(other_len) <= self.capacity()
    }

    /// Moves all the elements of `other` to the end of `self`.
    pub fn append(&mut self, other: &mut StackVec<A>)
        requires
            old(self).wf(),
            old(other).wf(),
            old(self)@.len() + old(other)@.len() <= stack_capacity::<A>(),
        ensures
            final(self).wf(),
            final(other).wf(),
            final(self)@ == old(self)@ + old(other)@,
            final(other)@ == Seq::<A>::empty(),
    {
        self.data.append(&mut other.data);
    }

    /// Moves all the elements to the end of `other`.
    pub fn drain_to_vec(&mut self, other: &mut Vec<A>)
        requires
            old(self).wf(),
        ensures
            final(self).wf(),
            final(other)@ == old(other)@ + old(self)@,
            final(self)@ == Seq::<A>::empty(),
    {
        other.append(&mut self.data);
    }

    /// The elements, in a heap vector.
    pub fn into_vec(self) -> (v: Vec<A>)
        ensures
            v@ == self@,
    {
        self.data
    }

    /// An iterator over the elements.
    pub fn iter(&self) -> (it: std::slice::Iter<'_, A>)
        ensures
            vstd::std_specs::slice::into_iter_elts(it) == self@,
    {
        let it = self.data.as_slice().iter();
        proof {
            assert(vstd::std_specs::slice::into_iter_elts(it) =~= self@);
        }
        it
    }

    /// An iterator over the elements, mutably: it hands out a reference to each element,
    /// first to last, and the vector ends holding what was written through them.
    pub fn iter_mut(&mut self) -> (it: std::slice::IterMut<'_, A>)
        ensures
            IteratorSpec::obeys_prophetic_iter_laws(&it),
            IteratorSpec::remaining(&it).len() == old(self)@.len(),
            final(self)@.len() == old(self)@.len(),
            forall|i: int| 0 <= i < old(self)@.len() ==> *#[trigger] IteratorSpec::remaining(&it)[i] == old(self)@[i],
            forall|i: int|
                0 <= i < old(self)@.len() ==> final(self)@[i] == *final(#[trigger] IteratorSpec::remaining(&it)[i]),
    {
        slice_iter_mut(&mut self.data)
    }

    /// A consuming iterator over the elements, first to last.
    pub fn into_iter(self) -> (it: StackVecIntoIter<A>)
        ensures
            it@ == self@,
    {
        let mut rev: Vec<A> = Vec::new();
        let mut data = self.data;
        let ghost all = data@;
        while data.len() > 0
            invariant
                all == data@ + rev@.reverse(),
            decreases data.len(),
        {
            let x = data.pop().unwrap();
            proof {
                assert(data@ + rev@.push(x).reverse() =~= all);
            }
            rev.push(x);
        }
        proof {
            assert(all =~= rev@.reverse());
        }
        StackVecIntoIter { rev }
    }

    /// Number of elements.
    pub fn len(&self) -> (n: usize)
        ensures
            n == self@.len(),
    {
        self.data.len()
    }

    /// A vector holding the elements of `items`.
    pub fn from_iter(items: Vec<A>) -> (r: Self)
        requires
            stack_layout_ok::<A>(),
            items@.len() <= stack_capacity::<A>(),
        ensures
            r.wf(),
            r@ == items@,
    {
        let mut output = StackVec::new();
        output.extend(items);
        output
    }

    /// Appends the elements of `items`, in order.
    pub fn extend(&mut self, items: Vec<A>)
        requires
            old(self).wf(),
            old(self)@.len() + items@.len() <= stack_capacity::<A>(),
        ensures
            final(self).wf(),
            final(self)@ == old(self)@ + items@,
    {
        let mut items = items;
        self.data.append(&mut items);
    }
}

impl<A> StackVecIntoIter<A> {
    /// The next element, or `None` when all have been handed out.
    pub fn next(&mut self) -> (r: Option<A>)
        ensures
            old(self)@.len() == 0 ==> r is None && final(self)@ == old(self)@,
            old(self)@.len() > 0 ==> r == Some(old(self)@[0]) && final(self)@ == old(self)@.drop_first(),
    {
        let r = self.rev.pop();
        proof {
            if old(self)@.len() > 0 {
                assert(final(self)@ =~= old(self)@.drop_first());
            }
        }
        r
    }

    /// Bounds on the number of elements left: both are that number.
    pub fn size_hint(&self) -> (r: (usize, Option<usize>))
        ensures
            r.0 == self@.len(),
            r.1 == Some(self@.len() as usize),
    {
        (self.rev.len(), Some(self.rev.len()))
    }
}


/// Do two sequences hold equal elements, position by position?
pub open spec fn seq_eq_spec<A: PartialEq>(a: Seq<A>, b: Seq<A>) -> bool {
    &&& a.len() == b.len()
    &&& forall|i: int| 0 <= i < a.len() ==> #[trigger] a[i].eq_spec(&b[i])
}

/// Compares two slices element by element.
pub(crate) fn slices_eq<A: PartialEq>(a: &[A], b: &[A]) -> (r: bool)
    ensures
        A::obeys_eq_spec() ==> r == seq_eq_spec(a@, b@),
{
    if a.len() != b.len() {
        return false;
    }
    let mut i: usize = 0;
    while i < a.len()
        invariant
            a@.len() == b@.len(),
            i <= a@.len(),
            A::obeys_eq_spec() ==> forall|j: int| 0 <= j < i ==> #[trigger] a@[j].eq_spec(&b@[j]),
        decreases a.len() - i,
    {
        if !(a[i] == b[i]) {
            return false;
        }
        i = i + 1;
    }
    true
}

impl<A: PartialEq> PartialEq for StackVec<A> {
    fn eq(&self, other: &Self) -> (r: bool) {
        slices_eq(self.data.as_slice(), other.data.as_slice())
    }
}

impl<A: PartialEq> vstd::std_specs::cmp::PartialEqSpecImpl for StackVec<A> {
    open spec fn obeys_eq_spec() -> bool {
        <A as PartialEqSpec>::obeys_eq_spec()
    }

    open spec fn eq_spec(&self, other: &Self) -> bool {
        seq_eq_spec(self@, other@)
    }
}


impl<A> std::ops::Index<usize> for StackVec<A> {
    type Output = A;

    fn index(&self, index: usize) -> (r: &A)
        ensures
            *r == self@[index as int],
    {
        &self.data[index]
    }
}

impl<A> vstd::std_specs::core::IndexSpecImpl<usize> for StackVec<A> {
    open spec fn index_req(&self, index: &usize) -> bool {
        *index < self@.len()
    }
}

} // verus!
