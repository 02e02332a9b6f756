//! Construction-time errors. A malformed schema must fail the build;
//! no error originates from the registry during the read-only serving
//! phase.

use vstd::prelude::*;
use crate::meta::MetaTypeId;

verus! {

/// A fatal schema-construction error.
#[derive(Debug, PartialEq)]
pub enum RegistryError {
    /// A name is already bound to another kind.
    NameKindMismatch { name: String, existing: MetaTypeId, requested: MetaTypeId },
    /// A name is already bound to a descriptor from another origin and
    /// the name is not whitelisted for merging.
    NameIdentityMismatch { name: String, existing: String, requested: String },
    /// A union member identity was declared twice.
    DuplicateMember { name: String },
    /// A union composed to zero possible types.
    EmptyUnion,
    /// A union member does not provide what its declaration requires.
    InvalidMember { name: String },
}

/// Ghost mirror of `RegistryError`.
pub ghost enum RegistryErrorView {
    NameKindMismatch { name: Seq<char>, existing: MetaTypeId, requested: MetaTypeId },
    NameIdentityMismatch { name: Seq<char>, existing: Seq<char>, requested: Seq<char> },
    DuplicateMember { name: Seq<char> },
    EmptyUnion,
    InvalidMember { name: Seq<char> },
}

impl View for RegistryError {
    type V = RegistryErrorView;

    open spec fn view(&self) -> RegistryErrorView {
        match self {
            RegistryError::NameKindMismatch { name, existing, requested } => {
                RegistryErrorView::NameKindMismatch {
                    name: name@,
                    existing: *existing,
                    requested: *requested,
                }
            },
            RegistryError::NameIdentityMismatch { name, existing, requested } => {
                RegistryErrorView::NameIdentityMismatch {
                    name: name@,
                    existing: existing@,
                    requested: requested@,
                }
            },
            RegistryError::DuplicateMember { name } => {
                RegistryErrorView::DuplicateMember { name: name@ }
            },
            RegistryError::EmptyUnion => RegistryErrorView::EmptyUnion,
            RegistryError::InvalidMember { name } => {
                RegistryErrorView::InvalidMember { name: name@ }
            },
        }
    }
}

} // verus!
