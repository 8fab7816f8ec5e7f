//! The glyph atlas places glyphs with the same Bottom-Left controller and
//! reports failures under its own names.
use vstd::prelude::*;
use crate::bl::{BLInsertError, BLInserter, BLInserterInitializer, BLRemoveError};

verus! {

/// The controller of a glyph atlas.
pub type TypeAtlasControl = BLInserter;

/// Builds the controller of a glyph atlas.
pub type TypeAtlasCtrlInitializer = BLInserterInitializer;

/// Why a glyph could not be inserted.
#[derive(Debug, Clone, Copy, PartialEq, Eq, Structural)]
pub enum TypeAtlasInsertError {
    InsDuplicateKey,
    InsNotEnoughSpace,
    IsDataTooLarge,
}

/// Why a glyph could not be removed.
#[derive(Debug, Clone, Copy, PartialEq, Eq, Structural)]
pub enum TypeAtlasRemoveError {
    EntryIsNotExist,
}

pub open spec fn insert_error_of(e: BLInsertError) -> TypeAtlasInsertError {
    match e {
        BLInsertError::KeyDuplicate => TypeAtlasInsertError::InsDuplicateKey,
        BLInsertError::InsNotEnoughSpace => TypeAtlasInsertError::InsNotEnoughSpace,
        BLInsertError::InsDataIsTooLarge => TypeAtlasInsertError::IsDataTooLarge,
    }
}

impl From<BLInsertError> for TypeAtlasInsertError {
    fn from(e: BLInsertError) -> (r: Self) {
        match e {
            BLInsertError::KeyDuplicate => TypeAtlasInsertError::InsDuplicateKey,
            BLInsertError::InsNotEnoughSpace => TypeAtlasInsertError::InsNotEnoughSpace,
            BLInsertError::InsDataIsTooLarge => TypeAtlasInsertError::IsDataTooLarge,
        }
    }
}

impl vstd::std_specs::convert::FromSpecImpl<BLInsertError> for TypeAtlasInsertError {
    open spec fn obeys_from_spec() -> bool {
        true
    }

    open spec fn from_spec(e: BLInsertError) -> Self {
        insert_error_of(e)
    }
}

impl From<BLRemoveError> for TypeAtlasRemoveError {
    fn from(e: BLRemoveError) -> (r: Self) {
        TypeAtlasRemoveError::EntryIsNotExist
    }
}

impl vstd::std_specs::convert::FromSpecImpl<BLRemoveError> for TypeAtlasRemoveError {
    open spec fn obeys_from_spec() -> bool {
        true
    }

    open spec fn from_spec(e: BLRemoveError) -> Self {
        TypeAtlasRemoveError::EntryIsNotExist
    }
}

} // verus!
