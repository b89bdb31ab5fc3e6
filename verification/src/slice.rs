//! A borrowed, read-only window onto a contiguous run of elements.

use vstd::prelude::*;

verus! {

/// A borrowed run of elements with the lifetime of the data it was made from.
pub struct Slice<'a, T> {
    items: &'a [T],
}

impl<'a, T> View for Slice<'a, T> {
    type V = Seq<T>;

    open spec fn view(&self) -> Seq<T> {
        self.as_seq()
    }
}

impl<'a, T> Copy for Slice<'a, T> {

}

impl<'a, T> Clone for Slice<'a, T> {
    /// A slice that covers the same elements. The elements themselves are
    /// not copied, so this asks nothing of their type.
    fn clone(&self) -> (s: Self)
        ensures
            s@ == self@,
    {
        Slice { items: self.items }
    }
}

impl<'a, T> From<&'a [T]> for Slice<'a, T> {
    /// Creates a slice that covers exactly the elements of `slice`.
    fn from(slice: &'a [T]) -> (s: Self) {
        Slice { items: slice }
    }
}

impl<'a, T> vstd::std_specs::convert::FromSpecImpl<&'a [T]> for Slice<'a, T> {
    open spec fn obeys_from_spec() -> bool {
        true
    }

    open spec fn from_spec(slice: &'a [T]) -> Self {
        Slice::covering(slice)
    }
}

impl<'a, T> Slice<'a, T> {
    /// The slice that covers exactly the elements of `x`.
    pub closed spec fn covering(x: &'a [T]) -> Self {
        Slice { items: x }
    }

    /// The slice that covers `x` covers what `x` holds.
    pub proof fn lemma_covering(x: &'a [T])
        ensures
            Self::covering(x)@ == x@,
    {
    }

    /// The elements that the slice covers, in order.
    pub closed spec fn as_seq(&self) -> Seq<T> {
        self.items@
    }

    /// Creates a slice that covers exactly the elements of `x`.
    pub fn from_slice(x: &'a [T]) -> (s: Self)
        ensures
            s == Self::covering(x),
            s@ == x@,
    {
        Slice::from(x)
    }

    /// Hands back the native slice the value was made from.
    pub fn as_slice(self) -> (x: &'a [T])
        ensures
            x@ == self@,
    {
        self.items
    }

    /// The number of elements covered.
    pub fn len(&self) -> (n: usize)
        ensures
            n == self@.len(),
    {
        self.items.len()
    }

    /// The element at position `i`, if there is one.
    pub fn get(&self, i: usize) -> (r: Option<&'a T>)
        ensures
            match r {
                Some(x) => i < self@.len() && *x == self@[i as int],
                None => i >= self@.len(),
            },
    {
        if i < self.items.len() {
            Some(&self.items[i])
        } else {
            None
        }
    }
}

} // verus!
