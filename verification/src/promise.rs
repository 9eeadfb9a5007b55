//! The place where the result of an asynchronous operation arrives.
//!
//! A [`Promise`] starts empty. Whoever runs the operation puts its result
//! in with [`Promise::complete`]; the application takes it out with
//! [`Promise::try_take`], once.

use vstd::prelude::*;

verus! {

/// The place for the result of an asynchronous operation.
pub struct Promise<T> {
    place: Option<T>,
}

impl<T> View for Promise<T> {
    type V = Option<T>;

    /// The result that waits to be taken, if there is one.
    closed spec fn view(&self) -> Option<T> {
        self.place
    }
}

impl<T> Promise<T> {
    /// A promise whose result has not arrived.
    pub fn new() -> (promise: Self)
        ensures
            promise@ is None,
    {
        Promise { place: None }
    }

    /// Puts the result of the operation in its place.
    pub fn complete(&mut self, result: T)
        ensures
            final(self)@ == Some(result),
    {
        self.place = Some(result);
    }

    /// Tries to obtain the result of the operation.
    ///
    /// Returns the result once it has arrived, and `None` before that. The
    /// result can be obtained only once: after it was returned, this
    /// function returns `None`.
    #[must_use]
    pub fn try_take(&mut self) -> (result: Option<T>)
        ensures
            result == old(self)@,
            final(self)@ is None,
    {
        self.place.take()
    }
}

} // verus!
