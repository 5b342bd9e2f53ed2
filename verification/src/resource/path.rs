//! Textual resource paths.
use vstd::prelude::*;

verus! {

/// A path to a resource.
pub struct ResourcePath {
    inner: String,
}

impl View for ResourcePath {
    type V = Seq<char>;

    closed spec fn view(&self) -> Seq<char> {
        self.inner@
    }
}

impl ResourcePath {
    /// The path with the given text.
    pub fn new(value: &str) -> (r: Self)
        ensures
            r@ == value@,
    {
        ResourcePath { inner: value.to_owned() }
    }

    /// The text of the path.
    pub fn as_str(&self) -> (r: &str)
        ensures
            r@ == self@,
    {
        self.inner.as_str()
    }

    /// The path with `rhs` appended to it.
    pub fn joined(self, rhs: &str) -> (r: Self)
        ensures
            r@ == self@ + rhs@,
    {
        let mut path = self;
        path.inner.append(rhs);
        path
    }

    /// Appends `rhs` to the path.
    pub fn append(&mut self, rhs: &str)
        ensures
            final(self)@ == old(self)@ + rhs@,
    {
        self.inner.append(rhs);
    }

    /// Whether both paths have the same text.
    pub fn equals(&self, other: &Self) -> (r: bool)
        ensures
            r == (self@ == other@),
    {
        self.inner == other.inner
    }

    /// A copy of the path.
    pub fn duplicate(&self) -> (r: Self)
        ensures
            r@ == self@,
    {
        ResourcePath { inner: self.inner.clone() }
    }
}

} // verus!
