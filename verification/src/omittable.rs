//! `Omittable<T>`: a three-state wrapper for a report field that may be
//! absent by design, failed, or present.  The three states compose with a
//! fixed precedence — a failure outranks an omission, an omission outranks a
//! value — so that one bad field degrades a report without destroying it.
use vstd::prelude::*;

verus! {

/// A field left out on purpose, lost to an error, or present.
#[derive(Debug, Clone, PartialEq)]
pub enum Omittable<T> {
    Omitted,
    Fail(String),
    Available(T),
}

impl<T> Omittable<T> {
    /// Whether a value is present.
    pub fn is_available(&self) -> (b: bool)
        ensures
            b == (self is Available),
    {
        match self {
            Omittable::Available(_) => true,
            _ => false,
        }
    }

    /// The value, or the failure message; an omission reads as the failure
    /// `"Omitted"`.
    pub fn into_stub_result(self) -> (r: Result<T, String>)
        ensures
            (self matches Omittable::Available(t) ==> r == Ok::<T, String>(t)),
            (self matches Omittable::Fail(m) ==> r == Err::<T, String>(m)),
            (self is Omitted ==> (r matches Err(m) && m@ == "Omitted"@)),
    {
        match self {
            Omittable::Fail(s) => Err(s),
            Omittable::Omitted => Err(String::from_str("Omitted")),
            Omittable::Available(t) => Ok(t),
        }
    }

    /// Applies `f` to a present value; failures and omissions pass through.
    pub fn map<U, F: FnOnce(T) -> U>(self, f: F) -> (r: Omittable<U>)
        requires
            self matches Omittable::Available(t) ==> call_requires(f, (t,)),
        ensures
            (self matches Omittable::Available(t) ==> r matches Omittable::Available(u)
                && call_ensures(f, (t,), u)),
            (self matches Omittable::Fail(m) ==> r == Omittable::<U>::Fail(m)),
            (self is Omitted ==> r is Omitted),
    {
        match self {
            Omittable::Available(value) => Omittable::Available(f(value)),
            Omittable::Fail(s) => Omittable::Fail(s),
            Omittable::Omitted => Omittable::Omitted,
        }
    }

    /// Combines two fields with `f` when both are present.  A failure wins
    /// over everything, the first operand's failure over the second's; an
    /// omission wins over a value.
    pub fn map2<S, U, F: FnOnce(S, T) -> U>(f: F, s: Omittable<S>, t: Omittable<T>) -> (r:
        Omittable<U>)
        requires
            s matches Omittable::Available(sv) ==> (t matches Omittable::Available(tv)
                ==> call_requires(f, (sv, tv))),
        ensures
            (s matches Omittable::Fail(m) ==> r == Omittable::<U>::Fail(m)),
            (s is Omitted ==> (t matches Omittable::Fail(m) ==> r == Omittable::<U>::Fail(m))),
            (s is Omitted && !(t is Fail) ==> r is Omitted),
            (s is Available ==> (t matches Omittable::Fail(m) ==> r == Omittable::<U>::Fail(m))),
            (s is Available && t is Omitted ==> r is Omitted),
            (s matches Omittable::Available(sv) ==> (t matches Omittable::Available(tv)
                ==> r matches Omittable::Available(u) && call_ensures(f, (sv, tv), u))),
    {
        match s {
            Omittable::Fail(msg) => Omittable::Fail(msg),
            Omittable::Omitted => match t {
                Omittable::Fail(msg) => Omittable::Fail(msg),
                _ => Omittable::Omitted,
            },
            Omittable::Available(s_val) => match t {
                Omittable::Available(t_val) => Omittable::Available(f(s_val, t_val)),
                Omittable::Omitted => Omittable::Omitted,
                Omittable::Fail(msg) => Omittable::Fail(msg),
            },
        }
    }

    /// Wraps the outcome of a fallible step.
    pub fn from_result(res: Result<T, String>) -> (r: Omittable<T>)
        ensures
            (res matches Ok(t) ==> r == Omittable::Available(t)),
            (res matches Err(m) ==> r == Omittable::<T>::Fail(m)),
    {
        match res {
            Ok(value) => Omittable::Available(value),
            Err(s) => Omittable::Fail(s),
        }
    }
}

impl<T> From<Result<T, String>> for Omittable<T> {
    fn from(res: Result<T, String>) -> (r: Omittable<T>)
        ensures
            (res matches Ok(t) ==> r == Omittable::Available(t)),
            (res matches Err(m) ==> r == Omittable::<T>::Fail(m)),
    {
        Omittable::from_result(res)
    }
}

impl<T> vstd::std_specs::convert::FromSpecImpl<Result<T, String>> for Omittable<T> {
    open spec fn obeys_from_spec() -> bool {
        true
    }

    open spec fn from_spec(res: Result<T, String>) -> Omittable<T> {
        match res {
            Ok(t) => Omittable::Available(t),
            Err(m) => Omittable::Fail(m),
        }
    }
}

} // verus!
