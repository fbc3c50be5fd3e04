//! A fixed-capacity vector stored inline, which is `Copy`.

use vstd::prelude::*;

verus! {

/// Values that can be stored in an [`InlineVec`]: those that are `Copy`.
pub trait Primitive: Copy {

}

impl<T: Copy> Primitive for T {

}

/// Our own limited implementation of `arrayvec`, but `Copy`.
#[derive(Copy)]
pub struct InlineVec<T: Primitive, const CAP: usize> {
    length: usize,
    buffer: [T; CAP],
}

/// The capacity of an [`InlineVec`] would be exceeded.
#[derive(Debug, Clone, Copy, PartialEq, Eq)]
pub struct CAPExceeded;

impl<T: Primitive, const CAP: usize> View for InlineVec<T, CAP> {
    type V = Seq<T>;

    /// The elements, in order.
    closed spec fn view(&self) -> Seq<T> {
        self.buffer@.take(self.length as int)
    }
}

impl<T: Primitive, const CAP: usize> InlineVec<T, CAP> {
    #[verifier::type_invariant]
    spec fn within_capacity(&self) -> bool {
        self.length <= CAP
    }

    /// An empty vector.
    pub fn new() -> (v: Self)
        where
            T: Default,
        ensures
            v@ == Seq::<T>::empty(),
    {
        let buffer: [T; CAP] = [T::default(); CAP];
        let v = InlineVec { length: 0, buffer };
        assert(v@ =~= Seq::<T>::empty());
        v
    }

    /// A vector holding the elements of `slice`, or [`CAPExceeded`] if it
    /// has more than `CAP` of them.
    pub fn try_from_slice(slice: &[T]) -> (result: Result<Self, CAPExceeded>)
        where
            T: Default,
        ensures
            slice@.len() <= CAP <==> result is Ok,
            result matches Ok(v) ==> v@ == slice@,
    {
        let length = slice.len();
        if length <= CAP {
            let mut buffer: [T; CAP] = [T::default(); CAP];
            let mut i: usize = 0;
            while i < length
                invariant
                    length == slice@.len() <= CAP,
                    i <= length,
                    buffer@.len() == CAP,
                    forall|j: int| 0 <= j < i ==> buffer@[j] == slice@[j],
                decreases length - i,
            {
                buffer[i] = slice[i];
                i = i + 1;
            }
            let v = InlineVec { length, buffer };
            assert(v@ =~= slice@);
            Ok(v)
        } else {
            Err(CAPExceeded)
        }
    }

    /// A vector holding the elements of `elements`, or [`CAPExceeded`] if it
    /// has more than `CAP` of them.
    pub fn try_from_vec(elements: Vec<T>) -> (result: Result<Self, CAPExceeded>)
        where
            T: Default,
        ensures
            elements@.len() <= CAP <==> result is Ok,
            result matches Ok(v) ==> v@ == elements@,
    {
        Self::try_from_slice(elements.as_slice())
    }

    /// A full vector holding the elements of `array`.
    pub fn from_array(array: [T; CAP]) -> (v: Self)
        ensures
            v@ == array@,
    {
        let v = InlineVec { length: CAP, buffer: array };
        assert(v@ =~= array@);
        v
    }

    /// The number of elements.
    pub fn len(&self) -> (length: usize)
        ensures
            length == self@.len(),
            length <= CAP,
    {
        proof {
            use_type_invariant(self);
        }
        self.length
    }

    /// Whether there are no elements.
    pub fn is_empty(&self) -> (empty: bool)
        ensures
            empty == (self@.len() == 0),
    {
        proof {
            use_type_invariant(self);
        }
        self.length == 0
    }

    /// Whether the vector holds `CAP` elements, so that no more fit.
    pub fn is_full(&self) -> (full: bool)
        ensures
            full == (self@.len() == CAP),
    {
        proof {
            use_type_invariant(self);
        }
        self.length == CAP
    }

    /// Appends `value`, or hands it back if the vector is full.
    pub fn try_push(&mut self, value: T) -> (result: Result<(), T>)
        ensures
            old(self)@.len() < CAP ==> result == Ok::<(), T>(()) && final(self)@ == old(self)@.push(
                value,
            ),
            old(self)@.len() == CAP ==> result == Err::<(), T>(value) && final(self)@ == old(self)@,
    {
        proof {
            use_type_invariant(&*self);
        }
        if self.is_full() {
            Err(value)
        } else {
            let ghost before = self@;
            let length = self.length;
            let mut buffer = self.buffer;
            buffer[length] = value;
            *self = InlineVec { length: length + 1, buffer };
            assert(self@ =~= before.push(value));
            Ok(())
        }
    }

    /// Removes and returns the last element, or `None` if there is none.
    pub fn pop(&mut self) -> (result: Option<T>)
        ensures
            old(self)@.len() == 0 ==> result == None::<T> && final(self)@ == old(self)@,
            old(self)@.len() > 0 ==> result == Some(old(self)@.last()) && final(self)@ == old(
                self,
            )@.drop_last(),
    {
        proof {
            use_type_invariant(&*self);
        }
        if self.is_empty() {
            None
        } else {
            let ghost before = self@;
            let length = self.length - 1;
            let value = self.buffer[length];
            *self = InlineVec { length, buffer: self.buffer };
            assert(self@ =~= before.drop_last());
            Some(value)
        }
    }

    /// The most elements the vector can hold.
    pub fn capacity(&self) -> (capacity: usize)
        ensures
            capacity == CAP,
    {
        CAP
    }

    /// The elements, in order.
    pub fn iter(&self) -> (elements: Vec<T>)
        ensures
            elements@ == self@,
    {
        proof {
            use_type_invariant(self);
        }
        let mut elements: Vec<T> = Vec::new();
        let mut i: usize = 0;
        while i < self.length
            invariant
                i <= self.length <= CAP,
                self.buffer@.len() == CAP,
                elements@ == self.buffer@.take(i as int),
            decreases self.length - i,
        {
            elements.push(self.buffer[i]);
            i = i + 1;
            assert(elements@ =~= self.buffer@.take(i as int));
        }
        elements
    }
}

impl<T: Primitive + Default, const CAP: usize> Default for InlineVec<T, CAP> {
    /// An empty vector.
    fn default() -> (v: Self)
        ensures
            v@ == Seq::<T>::empty(),
    {
        Self::new()
    }
}

impl<T: Primitive, const CAP: usize> Clone for InlineVec<T, CAP> {
    fn clone(&self) -> (copy: Self)
        ensures
            copy == *self,
    {
        *self
    }
}

/// Pushing onto a vector with room and then popping gives back the pushed
/// value and the previous contents.
pub proof fn law_push_then_pop<T>(contents: Seq<T>, value: T)
    ensures
        contents.push(value).len() > 0,
        contents.push(value).last() == value,
        contents.push(value).drop_last() == contents,
{
    assert(contents.push(value).drop_last() =~= contents);
}

} // verus!
