//! The adapter that lets a buffered reader of one asynchronous I/O family be
//! read as a reader of the other: it holds the reader, and says what a read
//! reports.

use vstd::prelude::*;

verus! {

/// A reader, held to be read through another interface.
pub struct TokioBufReadAsAsyncRead<R> {
    inner: R,
}

impl<R> TokioBufReadAsAsyncRead<R> {
    /// The reader that the adapter holds.
    pub closed spec fn inner(&self) -> R {
        self.inner
    }

    /// An adapter that holds `inner`.
    pub fn new(inner: R) -> (adapter: Self)
        ensures
            adapter.inner() == inner,
    {
        TokioBufReadAsAsyncRead { inner }
    }

    /// The reader.
    pub fn get_ref(&self) -> (reader: &R)
        ensures
            *reader == self.inner(),
    {
        &self.inner
    }

    /// The reader, to read from. What the caller leaves in it is what the
    /// adapter holds afterwards.
    pub fn get_mut(&mut self) -> (reader: &mut R)
        ensures
            *reader == old(self).inner(),
            final(self).inner() == *final(reader),
    {
        &mut self.inner
    }

    /// Gives the reader back.
    pub fn into_inner(self) -> (reader: R)
        ensures
            reader == self.inner(),
    {
        self.inner
    }
}

/// What a read through the adapter reports: the number of bytes that the
/// reader put into the buffer, or the reader's error.
pub fn read_outcome<E>(outcome: Result<(), E>, filled: usize) -> (reported: Result<usize, E>)
    ensures
        reported == (match outcome {
            Ok(_) => Ok::<usize, E>(filled),
            Err(error) => Err::<usize, E>(error),
        }),
{
    match outcome {
        Ok(()) => Ok(filled),
        Err(error) => Err(error),
    }
}

} // verus!
