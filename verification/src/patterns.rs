use vstd::prelude::*;

verus! {

/// A unit of matching work that advances a state. Implementors keep anything
/// expensive to compute in themselves, not in `execute`.
pub trait Work<S> {
    fn execute(&self, state: &mut S);
}

/// Matches when its inner pattern does not.
#[derive(Clone, Debug)]
pub struct Not<P> {
    pub pattern: P,
}

impl<P> Not<P> {
    pub fn new(pattern: P) -> (n: Self)
        ensures
            n.pattern == pattern,
    {
        Not { pattern }
    }

    /// The match of `not`, given whether the inner pattern matched (on a
    /// copy of the state, so that its bindings are dropped).
    pub fn outcome(inner_matched: bool) -> (r: bool)
        ensures
            r == !inner_matched,
    {
        !inner_matched
    }
}

/// What evaluating a predicate gives: whether it holds, and the value it
/// returned, if it returned one.
#[derive(Clone, Debug)]
pub struct FuncEvaluation<R> {
    pub predicator: bool,
    pub ret_val: Option<R>,
}

/// Why a negated predicate failed.
#[derive(Clone, Copy, Debug, PartialEq, Eq, Structural)]
pub enum NotError {
    /// A `return` inside a `not` clause.
    ReturnWithinNot,
}

/// Holds when its inner predicate does not.
#[derive(Clone, Debug)]
pub struct PrNot<P> {
    pub predicate: P,
}

impl<P> PrNot<P> {
    pub fn new(predicate: P) -> (n: Self)
        ensures
            n.predicate == predicate,
    {
        PrNot { predicate }
    }

    /// The evaluation of `not`, given the inner predicate's evaluation: a
    /// returned value is an error, otherwise the negation with no value.
    pub fn evaluation<R>(inner: FuncEvaluation<R>) -> (r: Result<FuncEvaluation<R>, NotError>)
        ensures
            inner.ret_val is Some ==> r == Err::<FuncEvaluation<R>, NotError>(NotError::ReturnWithinNot),
            inner.ret_val is None ==> (r matches Ok(e) && e.predicator == !inner.predicator
                && e.ret_val is None),
    {
        if inner.ret_val.is_some() {
            return Err(NotError::ReturnWithinNot);
        }
        Ok(FuncEvaluation { predicator: !inner.predicator, ret_val: None })
    }
}

} // verus!
