use vstd::prelude::*;

verus! {

/// Errors returned by the address-space operations.
#[derive(Clone, Copy, Debug, PartialEq, Eq, Structural)]
pub enum AxError {
    /// Misaligned address or size, out-of-range region, or unsupported level.
    InvalidInput,
    /// The requested region overlaps an existing mapping.
    AlreadyExists,
    /// A frame or table allocation failed.
    NoMemory,
    /// A translation-table operation could not be carried out.
    BadState,
}

/// Result type of the address-space operations.
pub type AxResult<T = ()> = Result<T, AxError>;

/// Errors of the area set and of the translation table.
#[derive(Clone, Copy, Debug, PartialEq, Eq, Structural)]
pub enum MappingError {
    /// An argument is invalid (for example an empty region).
    InvalidParam,
    /// The region overlaps an existing area.
    AlreadyExists,
    /// The translation table refused the operation.
    BadState,
}

/// Converts an area-set error into the address-space error it stands for.
pub fn mapping_err_to_ax_err(err: MappingError) -> (r: AxError)
    ensures
        r == mapping_err_spec(err),
{
    match err {
        MappingError::InvalidParam => AxError::InvalidInput,
        MappingError::AlreadyExists => AxError::AlreadyExists,
        MappingError::BadState => AxError::BadState,
    }
}

pub open spec fn mapping_err_spec(err: MappingError) -> AxError {
    match err {
        MappingError::InvalidParam => AxError::InvalidInput,
        MappingError::AlreadyExists => AxError::AlreadyExists,
        MappingError::BadState => AxError::BadState,
    }
}

} // verus!
