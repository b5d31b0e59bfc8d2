//! The producer side of a value that becomes available once: a completion source is pending
//! until a value or an error is set, and then stays as it was set.
use vstd::prelude::*;

verus! {

/// An error that can occur when completing a [`FutureCompletionSource`].
#[derive(Clone, Copy, Debug, PartialEq, Eq, Structural)]
pub enum FutureCompletionSourceError {
    /// The source has already completed.
    Invalid,
}

impl FutureCompletionSourceError {
    pub fn to_string(&self) -> (r: String)
        ensures
            r@ == "The underlying Future has already completed."@,
    {
        String::from_str("The underlying Future has already completed.")
    }
}

/// A value (or an error) that is set at most once; `None` while pending.
pub struct FutureCompletionSource<T, E> {
    value: Option<Result<T, E>>,
}

impl<T, E> FutureCompletionSource<T, E> {
    /// What has been set: `None` while pending.
    pub closed spec fn spec_state(&self) -> Option<Result<T, E>> {
        self.value
    }

    /// A pending source.
    pub fn new() -> (r: Self)
        ensures
            r.spec_state() is None,
    {
        FutureCompletionSource { value: None }
    }

    /// A source completed with `value`.
    pub fn new_with_value(value: T) -> (r: Self)
        ensures
            r.spec_state() == Some(Ok::<T, E>(value)),
    {
        FutureCompletionSource { value: Some(Ok(value)) }
    }

    /// Completes the source with `value`; refused when it has completed already.
    pub fn set_value(&mut self, value: T) -> (r: Result<(), FutureCompletionSourceError>)
        ensures
            old(self).spec_state() is None ==> r is Ok && final(self).spec_state() == Some(
                Ok::<T, E>(value),
            ),
            old(self).spec_state() is Some ==> r == Err::<(), FutureCompletionSourceError>(
                FutureCompletionSourceError::Invalid,
            ) && final(self).spec_state() == old(self).spec_state(),
    {
        self.set_inner_value(Ok(value))
    }

    /// Completes the source with `err`; refused when it has completed already.
    pub fn set_err(&mut self, err: E) -> (r: Result<(), FutureCompletionSourceError>)
        ensures
            old(self).spec_state() is None ==> r is Ok && final(self).spec_state() == Some(
                Err::<T, E>(err),
            ),
            old(self).spec_state() is Some ==> r == Err::<(), FutureCompletionSourceError>(
                FutureCompletionSourceError::Invalid,
            ) && final(self).spec_state() == old(self).spec_state(),
    {
        self.set_inner_value(Err(err))
    }

    /// What has been set, if anything.
    pub fn state(&self) -> (r: &Option<Result<T, E>>)
        ensures
            *r == self.spec_state(),
    {
        &self.value
    }

    /// Whether the source has completed.
    pub fn is_completed(&self) -> (r: bool)
        ensures
            r == self.spec_state() is Some,
    {
        self.value.is_some()
    }

    fn set_inner_value(&mut self, result: Result<T, E>) -> (r: Result<(), FutureCompletionSourceError>)
        ensures
            old(self).spec_state() is None ==> r is Ok && final(self).spec_state() == Some(result),
            old(self).spec_state() is Some ==> r == Err::<(), FutureCompletionSourceError>(
                FutureCompletionSourceError::Invalid,
            ) && final(self).spec_state() == old(self).spec_state(),
    {
        if self.value.is_some() {
            return Err(FutureCompletionSourceError::Invalid);
        }
        self.value = Some(result);
        Ok(())
    }
}

} // verus!
