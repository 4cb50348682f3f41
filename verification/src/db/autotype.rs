//! Settings for typing an entry into a window.
use vstd::prelude::*;

use crate::datum::Datum;

verus! {

/// The keystrokes to send to windows of a given title.
#[derive(Debug)]
pub struct AutoTypeAssociation {
    pub window: String,
    pub sequence: String,
}

/// How an entry is typed into other windows.
#[derive(Debug)]
pub struct AutoType {
    pub enabled: bool,
    pub default_sequence: Option<String>,
    pub data_transfer_obfuscation: Option<bool>,
    pub associations: Vec<AutoTypeAssociation>,
}

/// The content of an association: window title and keystrokes.
pub struct AssociationModel {
    pub window: Seq<char>,
    pub sequence: Seq<char>,
}

/// The content of the typing settings.
pub struct AutoTypeModel {
    pub enabled: bool,
    pub default_sequence: Option<Seq<char>>,
    pub data_transfer_obfuscation: Option<bool>,
    pub associations: Seq<AssociationModel>,
}

impl DeepView for AutoTypeAssociation {
    type V = AssociationModel;

    open spec fn deep_view(&self) -> AssociationModel {
        AssociationModel { window: self.window.deep_view(), sequence: self.sequence.deep_view() }
    }
}

impl Datum for AutoTypeAssociation {
    fn same(&self, other: &Self) -> (equal: bool) {
        self.window.same(&other.window) && self.sequence.same(&other.sequence)
    }

    fn duplicate(&self) -> (copy: Self) {
        AutoTypeAssociation { window: self.window.duplicate(), sequence: self.sequence.duplicate() }
    }
}

impl DeepView for AutoType {
    type V = AutoTypeModel;

    open spec fn deep_view(&self) -> AutoTypeModel {
        AutoTypeModel {
            enabled: self.enabled,
            default_sequence: self.default_sequence.deep_view(),
            data_transfer_obfuscation: self.data_transfer_obfuscation.deep_view(),
            associations: self.associations.deep_view(),
        }
    }
}

impl Datum for AutoType {
    fn same(&self, other: &Self) -> (equal: bool) {
        self.enabled == other.enabled && self.default_sequence.same(&other.default_sequence)
            && self.data_transfer_obfuscation.same(&other.data_transfer_obfuscation) && self.associations.same(
            &other.associations,
        )
    }

    fn duplicate(&self) -> (copy: Self) {
        AutoType {
            enabled: self.enabled,
            default_sequence: self.default_sequence.duplicate(),
            data_transfer_obfuscation: self.data_transfer_obfuscation,
            associations: self.associations.duplicate(),
        }
    }
}

} // verus!
