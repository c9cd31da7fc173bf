//! Priorities of function calls, and what a caller gets back from a call that
//! may have raised a queue exception.
use crate::queue::{MatchTypeException as QueueMatchTypeException, Promise};
use vstd::prelude::*;

verus! {

/// The error a typed look at an exception gives when the exception holds
/// another type. `expected` names the type that was asked for.
pub struct MatchTypeException {
    pub expected: &'static str,
}

/// A call's outcome: its value, or the exception that stopped it.
pub enum ResultMatch<T, E> {
    Returned(T),
    Exception(E),
}

/// A selected call's outcome: its value, the exception raised in its branch,
/// or `Interrupted` when a sibling's exception cancelled it first.
pub enum SelectMatch<T, E> {
    Returned(T),
    Exception(E),
    Interrupted,
}

/// The priority of a call: a value to order by, or `Now`, which runs ahead of
/// all values.
pub enum Priority<P> {
    Value(P),
    Now,
}

/// How the call queue orders calls.
pub enum PriorityStyle {
    /// Smaller values first.
    Min,
    /// Larger values first.
    Max,
    /// First in, first out; values are ignored.
    Queue,
}

/// Why a contract could not reach its call.
pub enum ContractError {
    FinishedFunction,
}

impl<P: Clone> Clone for Priority<P> {
    fn clone(&self) -> (r: Self) {
        match self {
            Priority::Value(v) => Priority::Value(v.clone()),
            Priority::Now => Priority::Now,
        }
    }
}

impl<P: Copy> Copy for Priority<P> {

}

impl<P> Default for Priority<P> {
    /// A priority defaults to `Now`.
    fn default() -> (r: Self)
        ensures
            r is Now,
    {
        Priority::Now
    }
}

impl<P> Priority<P> {
    /// Is this `Now`?
    pub fn is_now(&self) -> (r: bool)
        ensures
            r == (*self is Now),
    {
        match self {
            Priority::Value(_) => false,
            Priority::Now => true,
        }
    }

    /// Is this a value?
    pub fn is_value(&self) -> (r: bool)
        ensures
            r == (*self is Value),
            r == !(*self is Now),
    {
        !self.is_now()
    }

    /// The value; `Now` has none.
    pub fn unwrap(self) -> (v: P)
        requires
            self is Value,
        ensures
            self == Priority::Value(v),
    {
        match self {
            Priority::Value(v) => v,
            Priority::Now => vstd::pervasive::unreached(),
        }
    }

    /// The value as an option: `None` for `Now`.
    pub fn to_option(self) -> (o: Option<P>)
        ensures
            o == match self {
                Priority::Value(v) => Some(v),
                Priority::Now => None::<P>,
            },
    {
        match self {
            Priority::Value(v) => Some(v),
            Priority::Now => None,
        }
    }
}

/// A caught call: its promise, and the exception caught from it, if any.
pub struct PriorityExceptionPromise<T, X> {
    pub promise: Promise<T>,
    pub exception: Option<X>,
}

/// A selected call: its promise, and the exception raised in its branch, if any.
pub struct PriorityExceptionSelect<T, X> {
    pub promise: Promise<T>,
    pub exception: Option<X>,
}

/// A caught call whose outcome can be read.
pub struct UnwrappedPriorityExceptionPromise<T, X> {
    exception_promise: PriorityExceptionPromise<T, X>,
}

/// A selected call whose outcome can be read.
pub struct UnwrappedPriorityExceptionSelect<T, X> {
    priority_exception_select: PriorityExceptionSelect<T, X>,
}

impl<T, X> PriorityExceptionPromise<T, X> {
    /// The outcome can be read once the call has started.
    pub fn unwrap(self) -> (u: UnwrappedPriorityExceptionPromise<T, X>)
        requires
            self.promise.has_started,
        ensures
            u.inner() == self,
    {
        UnwrappedPriorityExceptionPromise { exception_promise: self }
    }
}

impl<T, X> PriorityExceptionSelect<T, X> {
    /// The outcome can be read once the call has started (a cancelled call
    /// counts as started).
    pub fn unwrap(self) -> (u: UnwrappedPriorityExceptionSelect<T, X>)
        requires
            self.promise.has_started,
        ensures
            u.inner() == self,
    {
        UnwrappedPriorityExceptionSelect { priority_exception_select: self }
    }
}

impl<T, X> UnwrappedPriorityExceptionSelect<T, X> {
    /// The selected call this was made from.
    pub closed spec fn inner(&self) -> PriorityExceptionSelect<T, X> {
        self.priority_exception_select
    }

    /// The outcome can be read: unless an exception was caught or the call was
    /// cut short, a finished call holds its value.
    pub open spec fn readable(&self) -> bool {
        self.inner().exception is None && self.inner().promise.is_finished
            ==> self.inner().promise.data is Some
    }

    /// The outcome of the selected call as a function of its parts.
    pub open spec fn outcome(&self) -> SelectMatch<T, X> {
        match self.inner().exception {
            Some(e) => SelectMatch::Exception(e),
            None => if self.inner().promise.is_finished {
                SelectMatch::Returned(self.inner().promise.data.unwrap())
            } else {
                SelectMatch::Interrupted
            },
        }
    }

    /// The exception raised in the branch if there is one; else the value if
    /// the call finished; else `Interrupted`.
    pub fn consume_any(self) -> (r: SelectMatch<T, X>)
        requires
            self.readable(),
        ensures
            r == self.outcome(),
    {
        let exception_promise = self.priority_exception_select;
        let promise = exception_promise.promise;
        let exception = exception_promise.exception;
        if !promise.is_finished && exception.is_none() {
            return SelectMatch::Interrupted;
        }
        match exception {
            None => SelectMatch::Returned(promise.data.unwrap()),
            Some(o) => SelectMatch::Exception(o),
        }
    }

    /// The value of a call that finished without an exception.
    pub fn unwrap_ok(self) -> (v: T)
        requires
            self.readable(),
            self.outcome() is Returned,
        ensures
            self.inner().promise.data == Some(v),
    {
        match self.consume_any() {
            SelectMatch::Returned(o) => o,
            SelectMatch::Exception(_) => vstd::pervasive::unreached(),
            SelectMatch::Interrupted => vstd::pervasive::unreached(),
        }
    }

    /// The outcome with the exception read as a given type: `cast` reads it,
    /// and gives `MatchTypeException` when it holds another type.
    pub fn consume_type<E, F: FnOnce(X) -> Result<E, MatchTypeException>>(self, cast: F) -> (r:
        Result<SelectMatch<T, E>, MatchTypeException>)
        requires
            self.readable(),
            self.inner().exception matches Some(e) ==> call_requires(cast, (e,)),
        ensures
            self.outcome() matches SelectMatch::Returned(v) ==> r == Ok::<
                SelectMatch<T, E>,
                MatchTypeException,
            >(SelectMatch::Returned(v)),
            self.outcome() is Interrupted ==> r == Ok::<SelectMatch<T, E>, MatchTypeException>(
                SelectMatch::Interrupted,
            ),
            self.inner().exception matches Some(e) ==> exists|c: Result<E, MatchTypeException>|
                call_ensures(cast, (e,), c) && r == match c {
                    Ok(v) => Ok(SelectMatch::<T, E>::Exception(v)),
                    Err(m) => Err(m),
                },
    {
        match self.consume_any() {
            SelectMatch::Returned(val) => Ok(SelectMatch::Returned(val)),
            SelectMatch::Exception(e) => match cast(e) {
                Ok(v) => Ok(SelectMatch::<T, E>::Exception(v)),
                Err(m) => Err(m),
            },
            SelectMatch::Interrupted => Ok(SelectMatch::Interrupted),
        }
    }
}

impl<T, X> UnwrappedPriorityExceptionPromise<T, X> {
    /// The caught call this was made from.
    pub closed spec fn inner(&self) -> PriorityExceptionPromise<T, X> {
        self.exception_promise
    }

    /// The outcome can be read: an exception was caught, or the call finished
    /// with a value.
    pub open spec fn readable(&self) -> bool {
        match self.inner().exception {
            Some(_) => true,
            None => self.inner().promise.is_finished && self.inner().promise.data is Some,
        }
    }

    /// The exception if one was caught, else the value.
    pub fn consume_any(self) -> (r: ResultMatch<T, X>)
        requires
            self.readable(),
        ensures
            r == match self.inner().exception {
                Some(e) => ResultMatch::Exception(e),
                None => ResultMatch::<T, X>::Returned(self.inner().promise.data.unwrap()),
            },
    {
        let exception_promise = self.exception_promise;
        let promise = exception_promise.promise;
        let exception = exception_promise.exception;
        match exception {
            None => ResultMatch::Returned(promise.data.unwrap()),
            Some(o) => ResultMatch::Exception(o),
        }
    }

    /// The value of a call that finished without an exception.
    pub fn unwrap_ok(self) -> (v: T)
        requires
            self.readable(),
            self.inner().exception is None,
        ensures
            self.inner().promise.data == Some(v),
    {
        match self.consume_any() {
            ResultMatch::Returned(o) => o,
            ResultMatch::Exception(_) => vstd::pervasive::unreached(),
        }
    }

    /// The outcome with the exception read as a given type: `cast` reads it,
    /// and gives the first-in first-out module's `MatchTypeException` when it
    /// holds another type.
    pub fn consume_type<E, F: FnOnce(X) -> Result<E, QueueMatchTypeException>>(self, cast: F) -> (r:
        Result<ResultMatch<T, E>, QueueMatchTypeException>)
        requires
            self.readable(),
            self.inner().exception matches Some(e) ==> call_requires(cast, (e,)),
        ensures
            self.inner().exception is None ==> r == Ok::<
                ResultMatch<T, E>,
                QueueMatchTypeException,
            >(ResultMatch::Returned(self.inner().promise.data.unwrap())),
            self.inner().exception matches Some(e) ==> exists|c: Result<E, QueueMatchTypeException>|
                call_ensures(cast, (e,), c) && r == match c {
                    Ok(v) => Ok(ResultMatch::<T, E>::Exception(v)),
                    Err(m) => Err(m),
                },
    {
        match self.consume_any() {
            ResultMatch::Returned(val) => Ok(ResultMatch::Returned(val)),
            ResultMatch::Exception(e) => match cast(e) {
                Ok(v) => Ok(ResultMatch::<T, E>::Exception(v)),
                Err(m) => Err(m),
            },
        }
    }
}

} // verus!
