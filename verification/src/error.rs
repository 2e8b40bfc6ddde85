use vstd::prelude::*;

verus! {

/// The category of an error, in the sense of `std::io::ErrorKind`.
#[derive(Clone, Copy, Debug, PartialEq, Eq, Structural)]
pub enum ErrorKind {
    InvalidData,
    InvalidInput,
    UnexpectedEof,
    NotFound,
}

/// Everything that can go wrong while reading a logo image or using a profile.
#[derive(Clone, Copy, Debug, PartialEq, Eq, Structural)]
pub enum MtkError {
    /// The data ended before the structure being read was complete.
    UnexpectedEof,
    /// The first four bytes are not the MTK magic number.
    BadMagic,
    /// The type name of the MTK header is not one this crate knows.
    UnknownType,
    /// The MTK header does not describe a logo.
    NotALogo,
    /// The size in the MTK header differs from the block size of the logo table.
    SizeMismatch { header_size: u32, block_size: u32 },
    /// The logo table holds a number of offsets other than its logo count.
    OffsetCountMismatch,
    /// The offset of the slot `index` lies beyond the block size.
    OffsetExceedsBlock { index: usize },
    /// The offsets of the logo table are not in increasing order.
    OffsetsNotOrdered,
    /// No slot has the index `index`.
    BlobIndexOutOfRange { index: usize },
    /// The color model name is not one of the known color modes.
    UnknownColorMode,
    /// No format of the profile has as many pixels as `size` bytes hold.
    NoMatchingFormat { size: u32 },
    /// No configuration file could be opened.
    ConfigNotFound,
    /// The file name does not follow the `logo_<index>_<mode>.<ext>` pattern.
    BadFileName,
    /// More slots than can be profiled: `count` slots were given.
    TooManySlots { count: usize },
    /// The screen hint covers more pixels than a `u32` holds, for a slot of `size` bytes.
    ScreenHintTooLarge { size: u32 },
}

pub open spec fn spec_error_kind(e: MtkError) -> ErrorKind {
    match e {
        MtkError::UnexpectedEof => ErrorKind::UnexpectedEof,
        MtkError::BlobIndexOutOfRange { .. } => ErrorKind::InvalidInput,
        MtkError::UnknownColorMode => ErrorKind::InvalidInput,
        MtkError::BadFileName => ErrorKind::InvalidInput,
        MtkError::TooManySlots { .. } => ErrorKind::InvalidInput,
        MtkError::ScreenHintTooLarge { .. } => ErrorKind::InvalidInput,
        MtkError::ConfigNotFound => ErrorKind::NotFound,
        _ => ErrorKind::InvalidData,
    }
}

impl MtkError {
    /// The category of this error.
    pub fn kind(&self) -> (k: ErrorKind)
        ensures
            k == spec_error_kind(*self),
    {
        match self {
            MtkError::UnexpectedEof => ErrorKind::UnexpectedEof,
            MtkError::BlobIndexOutOfRange { .. } => ErrorKind::InvalidInput,
            MtkError::UnknownColorMode => ErrorKind::InvalidInput,
            MtkError::BadFileName => ErrorKind::InvalidInput,
            MtkError::TooManySlots { .. } => ErrorKind::InvalidInput,
            MtkError::ScreenHintTooLarge { .. } => ErrorKind::InvalidInput,
            MtkError::ConfigNotFound => ErrorKind::NotFound,
            _ => ErrorKind::InvalidData,
        }
    }
}

} // verus!
