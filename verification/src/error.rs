//! The ways in which a store operation can fail.

use vstd::prelude::*;

verus! {

/// Why a store operation failed.
#[derive(Clone, Copy, Debug, PartialEq, Eq, Structural)]
pub enum StoreError {
    /// A label, a layer or a parent that must exist is missing.
    NotFound,
    /// A label of that name exists already.
    AlreadyExists,
    /// The builder has been committed already, an id is not defined, a pack
    /// lacks a requested layer, or a layer of that name exists already.
    InvalidData,
    /// The backend is out of ids or of layer names.
    Exhausted,
}

impl StoreError {
    /// A short description of the failure.
    pub fn message(&self) -> (s: &'static str)
        ensures
            match *self {
                StoreError::NotFound => s@ == "not found"@,
                StoreError::AlreadyExists => s@ == "already exists"@,
                StoreError::InvalidData => s@ == "invalid data"@,
                StoreError::Exhausted => s@ == "backend exhausted"@,
            },
    {
        match self {
            StoreError::NotFound => "not found",
            StoreError::AlreadyExists => "already exists",
            StoreError::InvalidData => "invalid data",
            StoreError::Exhausted => "backend exhausted",
        }
    }
}

} // verus!
