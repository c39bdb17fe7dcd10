//! The single-use hand-off of a source, and the tagging of failures by side.
use vstd::prelude::*;

verus! {

/// A wrapper for errors that can occur while transcoding, tagged with the
/// side that failed.
pub enum Error<D, S> {
    /// Error from the source (deserializer) side.
    DeserializerError(D),
    /// Error from the sink (serializer) side.
    SerializerError(S),
}

/// The hand-off of one source to the forwarding algorithm.
///
/// A transcoder holds its source until it is driven, and gives it up exactly
/// once: a second drive finds nothing to take. When the source fails while
/// the transcoder is driven, the failure has to travel back through the sink,
/// in the sink's own error type; the transcoder keeps the source's error, so
/// that the caller can still report it as a source failure.
pub struct Transcoder<D, E> {
    de: Option<D>,
    de_err: Option<E>,
}

impl<D, E> Transcoder<D, E> {
    /// The source, while it has not been taken.
    pub closed spec fn source(&self) -> Option<D> {
        self.de
    }

    /// The error of the source that has been recorded and not yet taken.
    pub closed spec fn source_error(&self) -> Option<E> {
        self.de_err
    }

    /// Constructs a new `Transcoder`.
    pub fn new(de: D) -> (r: Transcoder<D, E>)
        ensures
            r.source() == Some(de),
            r.source_error() is None,
    {
        Transcoder { de: Some(de), de_err: None }
    }

    /// Takes the source out to drive it. Only the first call finds it: every
    /// later call returns `None`.
    pub fn take_source(&mut self) -> (r: Option<D>)
        ensures
            r == old(self).source(),
            final(self).source() is None,
            final(self).source_error() == old(self).source_error(),
    {
        self.de.take()
    }

    /// Ends a drive of the source. A value or a sink error is returned as it
    /// is. A source error is kept, to be taken later, and `Err(None)` tells
    /// the caller to report the failure to the sink in the sink's own terms.
    pub fn conclude<T, S>(&mut self, outcome: Result<Result<T, S>, E>) -> (r: Result<T, Option<S>>)
        ensures
            final(self).source() == old(self).source(),
            match outcome {
                Ok(Ok(v)) => r == Ok::<T, Option<S>>(v) && final(self).source_error()
                    == old(self).source_error(),
                Ok(Err(s)) => r == Err::<T, Option<S>>(Some(s)) && final(self).source_error()
                    == old(self).source_error(),
                Err(e) => r == Err::<T, Option<S>>(None) && final(self).source_error() == Some(e),
            },
    {
        match outcome {
            Ok(Ok(v)) => Ok(v),
            Ok(Err(s)) => Err(Some(s)),
            Err(e) => {
                self.de_err = Some(e);
                Err(None)
            },
        }
    }

    /// Returns the last error that has occurred on the source side while
    /// transcoding, and removes it. Errors on the sink side are returned by
    /// the drive itself.
    pub fn take_last_deserializer_error(&mut self) -> (r: Option<E>)
        ensures
            r == old(self).source_error(),
            final(self).source_error() is None,
            final(self).source() == old(self).source(),
    {
        self.de_err.take()
    }

    /// Hands the result of a nested drive back up to the source that asked
    /// for it: a recorded source error comes first, and is returned in the
    /// source's own terms; otherwise the sink's result is passed on inside
    /// `Ok`.
    pub fn settle<T, S>(&mut self, result: Result<T, S>) -> (r: Result<Result<T, S>, E>)
        ensures
            final(self).source_error() is None,
            final(self).source() == old(self).source(),
            match old(self).source_error() {
                Some(e) => r == Err::<Result<T, S>, E>(e),
                None => r == Ok::<Result<T, S>, E>(result),
            },
    {
        match self.take_last_deserializer_error() {
            Some(e) => Err(e),
            None => Ok(result),
        }
    }

    /// Ends a whole transcoding: a recorded source error is reported as a
    /// source failure, even where the sink failed because of it; otherwise
    /// the sink's value, or its error as a sink failure.
    pub fn finish<T, S>(&mut self, result: Result<T, S>) -> (r: Result<T, Error<E, S>>)
        ensures
            final(self).source_error() is None,
            final(self).source() == old(self).source(),
            match old(self).source_error() {
                Some(e) => r == Err::<T, Error<E, S>>(Error::DeserializerError(e)),
                None => match result {
                    Ok(v) => r == Ok::<T, Error<E, S>>(v),
                    Err(s) => r == Err::<T, Error<E, S>>(Error::SerializerError(s)),
                },
            },
    {
        match self.take_last_deserializer_error() {
            Some(e) => Err(Error::DeserializerError(e)),
            None => match result {
                Ok(v) => Ok(v),
                Err(s) => Err(Error::SerializerError(s)),
            },
        }
    }
}

} // verus!
