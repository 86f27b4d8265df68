//! Error context for readers that must not allocate: a failure is reported as
//! the static text of the node that failed.
use vstd::prelude::*;

verus! {

/// Replaces any error with a static description.
pub trait ReadErrCtx<T>: Sized {
    fn errorize(self, text: &'static str) -> Result<T, &'static str>;
}

impl<T, E> ReadErrCtx<T> for Result<T, E> {
    /// `Ok` passes through; any `Err` becomes `Err(text)`.
    fn errorize(self, text: &'static str) -> (out: Result<T, &'static str>)
        ensures
            self is Ok ==> out == Ok::<T, &'static str>(self->Ok_0),
            self is Err ==> out == Err::<T, &'static str>(text),
    {
        match self {
            Err(_) => Err(text),
            Ok(v) => Ok(v),
        }
    }
}

} // verus!
