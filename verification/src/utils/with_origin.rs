//! Values tagged with the source file that produced them.

use vstd::prelude::*;

verus! {

/// A value together with the path of the file it came from.
#[derive(Debug)]
pub struct WithOrigin<T> {
    pub origin: String,
    pub data: T,
}

impl<T> WithOrigin<T> {
    pub fn new(data: T, origin: String) -> (r: Self)
        ensures
            r.data == data,
            r.origin == origin,
    {
        WithOrigin { data, origin }
    }

    /// The same origin around what `op` makes of the value.
    pub fn map<U, F: FnOnce(T) -> U>(self, op: F) -> (r: WithOrigin<U>)
        requires
            op.requires((self.data,)),
        ensures
            op.ensures((self.data,), r.data),
            r.origin == self.origin,
    {
        let WithOrigin { origin, data } = self;
        WithOrigin { data: op(data), origin }
    }

    /// The same origin around another value.
    pub fn as_with_data<U>(&self, data: U) -> (r: WithOrigin<U>)
        ensures
            r.data == data,
            r.origin@ == self.origin@,
    {
        WithOrigin { data, origin: self.origin.clone() }
    }
}

} // verus!
