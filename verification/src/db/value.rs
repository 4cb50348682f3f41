//! Values that may be marked as secret.
use vstd::prelude::*;

use crate::datum::Datum;

verus! {

/// A value, with a mark that says whether it is to be protected in memory and on disk.
#[derive(Debug)]
pub enum Value<T> {
    Unprotected(T),
    Protected(T),
}

impl<T> Value<T> {
    pub fn unprotected(data: T) -> (value: Self)
        ensures
            value == Value::Unprotected(data),
    {
        Value::Unprotected(data)
    }

    pub fn protected(data: T) -> (value: Self)
        ensures
            value == Value::Protected(data),
    {
        Value::Protected(data)
    }

    /// What the value holds, protected or not.
    pub open spec fn data(self) -> T {
        match self {
            Value::Unprotected(data) => data,
            Value::Protected(data) => data,
        }
    }

    pub fn get(&self) -> (data: &T)
        ensures
            *data == self.data(),
    {
        match self {
            Value::Unprotected(data) => data,
            Value::Protected(data) => data,
        }
    }

    pub fn is_protected(&self) -> (protected: bool)
        ensures
            protected == (self is Protected),
    {
        match self {
            Value::Unprotected(_) => false,
            Value::Protected(_) => true,
        }
    }
}

impl<T: DeepView> DeepView for Value<T> {
    type V = Value<T::V>;

    open spec fn deep_view(&self) -> Value<T::V> {
        match self {
            Value::Unprotected(data) => Value::Unprotected(data.deep_view()),
            Value::Protected(data) => Value::Protected(data.deep_view()),
        }
    }
}

impl<T: Datum> Datum for Value<T> {
    fn same(&self, other: &Self) -> (equal: bool) {
        match (self, other) {
            (Value::Unprotected(a), Value::Unprotected(b)) => a.same(b),
            (Value::Protected(a), Value::Protected(b)) => a.same(b),
            _ => false,
        }
    }

    fn duplicate(&self) -> (copy: Self) {
        match self {
            Value::Unprotected(data) => Value::Unprotected(data.duplicate()),
            Value::Protected(data) => Value::Protected(data.duplicate()),
        }
    }
}

impl<T: Datum> Clone for Value<T> {
    fn clone(&self) -> (copy: Self)
        ensures
            copy.deep_view() == self.deep_view(),
    {
        self.duplicate()
    }
}

} // verus!
