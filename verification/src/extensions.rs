//! Extensions of std types.
use vstd::prelude::*;

verus! {

/// Turning a success into a failure when its value is not acceptable.
pub trait FilterResult<T, E>: Sized {
    /// The success value or the error held.
    spec fn outcome(&self) -> Result<T, E>;

    /// Keeps a success whose value `f` accepts; turns one that it rejects into `err`. A failure
    /// stays as it is.
    fn filter<F: FnOnce(&T) -> bool>(self, err: E, f: F) -> (r: Result<T, E>)
        requires
            self.outcome() is Ok ==> f.requires((&self.outcome()->Ok_0,)),
        ensures
            match self.outcome() {
                Ok(t) => exists|b: bool|
                    f.ensures((&t,), b) && r == if b {
                        Ok::<T, E>(t)
                    } else {
                        Err::<T, E>(err)
                    },
                Err(e) => r == Err::<T, E>(e),
            },
    ;

    /// Like [`FilterResult::filter`], with the error made by `err` only when it is needed.
    fn filter_else<F: FnOnce(&T) -> bool, G: FnOnce() -> E>(self, err: G, f: F) -> (r: Result<
        T,
        E,
    >)
        requires
            self.outcome() is Ok ==> f.requires((&self.outcome()->Ok_0,)) && err.requires(()),
        ensures
            match self.outcome() {
                Ok(t) => exists|b: bool|
                    f.ensures((&t,), b) && if b {
                        r == Ok::<T, E>(t)
                    } else {
                        r is Err && err.ensures((), r->Err_0)
                    },
                Err(e) => r == Err::<T, E>(e),
            },
    ;
}

impl<T, E> FilterResult<T, E> for Result<T, E> {
    open spec fn outcome(&self) -> Result<T, E> {
        *self
    }

    fn filter<F: FnOnce(&T) -> bool>(self, err: E, f: F) -> (r: Result<T, E>) {
        match self {
            Ok(t) => {
                if f(&t) {
                    Ok(t)
                } else {
                    Err(err)
                }
            },
            Err(e) => Err(e),
        }
    }

    fn filter_else<F: FnOnce(&T) -> bool, G: FnOnce() -> E>(self, err: G, f: F) -> (r: Result<
        T,
        E,
    >) {
        match self {
            Ok(t) => {
                if f(&t) {
                    Ok(t)
                } else {
                    Err(err())
                }
            },
            Err(e) => Err(e),
        }
    }
}

} // verus!
