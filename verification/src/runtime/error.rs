//! Error context for readers: a failure names the node being read and carries
//! the text of the underlying error.
use vstd::prelude::*;
use std::fmt::Display;

verus! {

/// A read failed in `node`; `inner` describes why.
#[derive(Debug)]
pub struct ReadError {
    pub node: &'static str,
    pub inner: String,
}

impl ReadError {
    /// The message shown for this error: `Error reading in node NODE: INNER`.
    pub fn message(&self) -> (out: String)
        ensures
            out@ == "Error reading in node "@ + self.node@ + ": "@ + self.inner@,
    {
        let mut out = String::from_str("Error reading in node ");
        out.append(self.node);
        out.append(": ");
        out.append(self.inner.as_str());
        out
    }
}

/// Attaches the failing node to an error.
pub trait ReadErrCtx<T>: Sized {
    fn errorize(self, node: &'static str) -> Result<T, ReadError>;
}

impl<T, E: Display> ReadErrCtx<T> for Result<T, E> {
    /// `Ok` passes through; an `Err(e)` becomes a `ReadError` for `node` whose
    /// text is `e` displayed.
    fn errorize(self, node: &'static str) -> (out: Result<T, ReadError>)
        ensures
            self is Ok ==> out == Ok::<T, ReadError>(self->Ok_0),
            self is Err ==> out is Err && out->Err_0.node == node
                && vstd::string::to_string_from_display_ensures::<E>(&self->Err_0, out->Err_0.inner),
    {
        match self {
            Err(e) => Err(ReadError { node: node, inner: e.to_string() }),
            Ok(v) => Ok(v),
        }
    }
}

} // verus!
