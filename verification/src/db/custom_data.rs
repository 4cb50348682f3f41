//! Data that plugins keep with an entry or a group.
use vstd::prelude::*;

use crate::datetime::NaiveDateTime;
use crate::datum::Datum;
use crate::db::value::Value;

verus! {

/// One item of plugin data.
#[derive(Debug)]
pub struct CustomDataItem {
    pub value: Option<Value<String>>,
    pub last_modification_time: Option<NaiveDateTime>,
}

/// The content of an item of plugin data.
pub struct CustomDataModel {
    pub value: Option<Value<Seq<char>>>,
    pub last_modification_time: Option<NaiveDateTime>,
}

impl DeepView for CustomDataItem {
    type V = CustomDataModel;

    open spec fn deep_view(&self) -> CustomDataModel {
        CustomDataModel {
            value: self.value.deep_view(),
            last_modification_time: self.last_modification_time.deep_view(),
        }
    }
}

impl Datum for CustomDataItem {
    fn same(&self, other: &Self) -> (equal: bool) {
        self.value.same(&other.value) && self.last_modification_time.same(&other.last_modification_time)
    }

    fn duplicate(&self) -> (copy: Self) {
        CustomDataItem { value: self.value.duplicate(), last_modification_time: self.last_modification_time }
    }
}

} // verus!
