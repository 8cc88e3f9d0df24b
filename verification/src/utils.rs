//! Common utilities: a three-way result and the two traits by which the
//! scanner tells success from failure and decides whether to go on.

pub mod iter;

use vstd::prelude::*;

verus! {

/// The result of a scanner.
#[derive(Debug, Copy, Clone, PartialEq, Eq)]
pub enum Result3<T, E, M> {
    /// Success, with a result.
    Success(T),
    /// Failure with an error, for good.
    FailFast(E),
    /// Failure without an error: another rule may be tried.
    RetryLater(M),
}

/// Values that are a success or a failure.
pub trait Maybe: Sized {
    /// What a success holds.
    type Just;

    /// Whether the value is a success.
    spec fn spec_is_just(&self) -> bool;

    /// What the value holds if it is a success.
    spec fn spec_optional(self) -> Option<Self::Just>;

    /// The success that holds `x`.
    fn just(x: Self::Just) -> (r: Self)
        ensures
            r.spec_is_just(),
            r.spec_optional() == Some(x),
    ;

    /// Whether the value is a success.
    fn is_just(&self) -> (r: bool)
        ensures
            r == self.spec_is_just(),
    ;

    /// Whether the value is a failure.
    fn is_nothing(&self) -> (r: bool)
        ensures
            r == !self.spec_is_just(),
    ;

    /// What the value holds if it is a success.
    fn into_optional(self) -> (r: Option<Self::Just>)
        ensures
            r == self.spec_optional(),
            r.is_some() == self.spec_is_just(),
    ;
}

impl<T> Maybe for Option<T> {
    type Just = T;

    open spec fn spec_is_just(&self) -> bool {
        self.is_some()
    }

    open spec fn spec_optional(self) -> Option<T> {
        self
    }

    fn just(x: T) -> (r: Self) {
        Some(x)
    }

    fn is_just(&self) -> (r: bool) {
        self.is_some()
    }

    fn is_nothing(&self) -> (r: bool) {
        !self.is_some()
    }

    fn into_optional(self) -> (r: Option<T>) {
        self
    }
}

impl<T, E> Maybe for Result<T, E> {
    type Just = T;

    open spec fn spec_is_just(&self) -> bool {
        self.is_ok()
    }

    open spec fn spec_optional(self) -> Option<T> {
        match self {
            Ok(x) => Some(x),
            Err(_) => None,
        }
    }

    fn just(x: T) -> (r: Self) {
        Ok(x)
    }

    fn is_just(&self) -> (r: bool) {
        self.is_ok()
    }

    fn is_nothing(&self) -> (r: bool) {
        !self.is_ok()
    }

    fn into_optional(self) -> (r: Option<T>) {
        match self {
            Ok(x) => Some(x),
            Err(_) => None,
        }
    }
}

impl<T, E, M> Maybe for Result3<T, E, M> {
    type Just = T;

    open spec fn spec_is_just(&self) -> bool {
        self is Success
    }

    open spec fn spec_optional(self) -> Option<T> {
        match self {
            Result3::Success(x) => Some(x),
            _ => None,
        }
    }

    fn just(x: T) -> (r: Self) {
        Result3::Success(x)
    }

    fn is_just(&self) -> (r: bool) {
        match self {
            Result3::Success(_) => true,
            _ => false,
        }
    }

    fn is_nothing(&self) -> (r: bool) {
        match self {
            Result3::Success(_) => false,
            _ => true,
        }
    }

    fn into_optional(self) -> (r: Option<T>) {
        match self {
            Result3::Success(x) => Some(x),
            _ => None,
        }
    }
}

/// Values that either end a computation (left) or let it go on (right).
pub trait Either: Sized {
    /// What ends the computation.
    type Left;

    /// What the computation goes on with.
    type Right;

    /// The value as a result: `Err` of a left, `Ok` of a right.
    spec fn spec_result(self) -> Result<Self::Right, Self::Left>;

    /// The value that ends the computation with `x`.
    fn left(x: Self::Left) -> (r: Self)
        ensures
            r.spec_result() == Err::<Self::Right, Self::Left>(x),
    ;

    /// The value that goes on with `x`.
    fn right(x: Self::Right) -> (r: Self)
        ensures
            r.spec_result() == Ok::<Self::Right, Self::Left>(x),
    ;

    /// The value as a result.
    fn into_result(self) -> (r: Result<Self::Right, Self::Left>)
        ensures
            r == self.spec_result(),
    ;
}

impl<T> Either for Option<T> {
    type Left = ();

    type Right = T;

    open spec fn spec_result(self) -> Result<T, ()> {
        match self {
            Some(x) => Ok(x),
            None => Err(()),
        }
    }

    fn left(x: ()) -> (r: Self) {
        None
    }

    fn right(x: T) -> (r: Self) {
        Some(x)
    }

    fn into_result(self) -> (r: Result<T, ()>) {
        match self {
            Some(x) => Ok(x),
            None => Err(()),
        }
    }
}

impl<T, E> Either for Result<T, E> {
    type Left = E;

    type Right = T;

    open spec fn spec_result(self) -> Result<T, E> {
        self
    }

    fn left(x: E) -> (r: Self) {
        Err(x)
    }

    fn right(x: T) -> (r: Self) {
        Ok(x)
    }

    fn into_result(self) -> (r: Result<T, E>) {
        self
    }
}

impl<T, E, M> Either for Result3<T, E, M> {
    type Left = M;

    type Right = Result<T, E>;

    open spec fn spec_result(self) -> Result<Result<T, E>, M> {
        match self {
            Result3::Success(x) => Ok(Ok(x)),
            Result3::FailFast(e) => Ok(Err(e)),
            Result3::RetryLater(m) => Err(m),
        }
    }

    fn left(m: M) -> (r: Self) {
        Result3::RetryLater(m)
    }

    fn right(x: Result<T, E>) -> (r: Self) {
        match x {
            Ok(x) => Result3::Success(x),
            Err(e) => Result3::FailFast(e),
        }
    }

    fn into_result(self) -> (r: Result<Result<T, E>, M>) {
        match self {
            Result3::Success(x) => Ok(Ok(x)),
            Result3::FailFast(e) => Ok(Err(e)),
            Result3::RetryLater(m) => Err(m),
        }
    }
}

/// Rounds `x` up to a multiple of `n`.
pub fn round_to(x: usize, n: usize) -> (r: usize)
    requires
        n > 0,
        x + n - 1 <= usize::MAX,
    ensures
        r % n == 0,
        x <= r < x + n,
        r == (x + (n - 1)) / (n as int) * n,
{
    let q = (x + (n - 1)) / n;
    proof {
        let a = (x + n - 1) as int;
        let m = n as int;
        assert(a == m * (a / m) + a % m && 0 <= a % m < m) by (nonlinear_arith)
            requires
                m > 0,
        ;
        assert(((q as int) * m) % m == 0) by (nonlinear_arith)
            requires
                m > 0,
        ;
        assert((a / m) * m == m * (a / m)) by (nonlinear_arith);
    }
    q * n
}

} // verus!
