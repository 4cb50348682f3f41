//! Values that are compared and copied as a whole.
use vstd::prelude::*;

use crate::datetime::NaiveDateTime;
use crate::ids::{AttachmentId, EntryId, GroupId};

verus! {

/// A value with a mathematical content by which it is compared and copied.
pub trait Datum: DeepView + Sized {
    /// Whether two values have the same content.
    fn same(&self, other: &Self) -> (equal: bool)
        ensures
            equal == (self.deep_view() == other.deep_view()),
    ;

    /// A second value with the same content.
    fn duplicate(&self) -> (copy: Self)
        ensures
            copy.deep_view() == self.deep_view(),
    ;
}

impl Datum for String {
    fn same(&self, other: &Self) -> (equal: bool) {
        *self == *other
    }

    fn duplicate(&self) -> (copy: Self) {
        self.clone()
    }
}

impl Datum for u8 {
    fn same(&self, other: &Self) -> (equal: bool) {
        *self == *other
    }

    fn duplicate(&self) -> (copy: Self) {
        *self
    }
}

impl Datum for bool {
    fn same(&self, other: &Self) -> (equal: bool) {
        *self == *other
    }

    fn duplicate(&self) -> (copy: Self) {
        *self
    }
}

impl DeepView for GroupId {
    type V = Self;

    open spec fn deep_view(&self) -> Self {
        *self
    }
}

impl Datum for GroupId {
    fn same(&self, other: &Self) -> (equal: bool) {
        *self == *other
    }

    fn duplicate(&self) -> (copy: Self) {
        *self
    }
}

impl DeepView for EntryId {
    type V = Self;

    open spec fn deep_view(&self) -> Self {
        *self
    }
}

impl Datum for EntryId {
    fn same(&self, other: &Self) -> (equal: bool) {
        *self == *other
    }

    fn duplicate(&self) -> (copy: Self) {
        *self
    }
}

impl DeepView for AttachmentId {
    type V = Self;

    open spec fn deep_view(&self) -> Self {
        *self
    }
}

impl Datum for AttachmentId {
    fn same(&self, other: &Self) -> (equal: bool) {
        *self == *other
    }

    fn duplicate(&self) -> (copy: Self) {
        *self
    }
}

impl DeepView for NaiveDateTime {
    type V = Self;

    open spec fn deep_view(&self) -> Self {
        *self
    }
}

impl Datum for NaiveDateTime {
    fn same(&self, other: &Self) -> (equal: bool) {
        *self == *other
    }

    fn duplicate(&self) -> (copy: Self) {
        *self
    }
}

impl<T: Datum> Datum for Option<T> {
    fn same(&self, other: &Self) -> (equal: bool) {
        match (self, other) {
            (Some(a), Some(b)) => a.same(b),
            (None, None) => true,
            _ => false,
        }
    }

    fn duplicate(&self) -> (copy: Self) {
        match self {
            Some(a) => Some(a.duplicate()),
            None => None,
        }
    }
}

impl<T: Datum> Datum for Vec<T> {
    fn same(&self, other: &Self) -> (equal: bool) {
        if self.len() != other.len() {
            assert(self.deep_view().len() != other.deep_view().len());
            return false;
        }
        let mut i: usize = 0;
        while i < self.len()
            invariant
                i <= self.len() == other.len(),
                forall|j: int| 0 <= j < i ==> self.deep_view()[j] == other.deep_view()[j],
            decreases self.len() - i,
        {
            if !self[i].same(&other[i]) {
                assert(self.deep_view()[i as int] != other.deep_view()[i as int]);
                return false;
            }
            i = i + 1;
        }
        assert(self.deep_view() =~= other.deep_view());
        true
    }

    fn duplicate(&self) -> (copy: Self) {
        let mut copy: Vec<T> = Vec::new();
        let mut i: usize = 0;
        while i < self.len()
            invariant
                i <= self.len(),
                copy.len() == i,
                forall|j: int| 0 <= j < i ==> copy.deep_view()[j] == self.deep_view()[j],
            decreases self.len() - i,
        {
            let ghost before = copy@;
            copy.push(self[i].duplicate());
            assert(forall|j: int| 0 <= j < i ==> copy@[j] == before[j]);
            i = i + 1;
        }
        assert(copy.deep_view() =~= self.deep_view());
        copy
    }
}

} // verus!
