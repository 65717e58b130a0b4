//! Error types reported by the codecs and the editor core.

use vstd::prelude::*;

verus! {

/// Failures of the color and palette codec.
#[derive(Debug, Clone, Copy, PartialEq, Eq, Structural)]
pub enum ThemeError {
    /// The color text is not `#` followed by six characters.
    HexFormat,
    /// A color character is not a hex digit.
    HexValue,
    /// The palette does not hold exactly 8 or 16 colors; carries the length
    /// seen.
    PaletteSize(usize),
}

/// Failures of the event line codec.
#[derive(Debug, Clone, Copy, PartialEq, Eq, Structural)]
pub enum EventError {
    /// The line is not wrapped in brackets.
    Format,
    /// The first part is not an acceptable time.
    Time,
    /// The payload of a resize event is not `<cols>x<rows>`.
    Resize,
    /// The code part is empty.
    MissingCode,
    /// The line does not split into exactly three parts; carries the count
    /// seen.
    PartCount(usize),
}

/// Failures while re-encoding data for a save.
#[derive(Debug, Clone, Copy, PartialEq, Eq, Structural)]
pub enum SerializationError {
    Json,
    Theme(ThemeError),
    Event(EventError),
}

/// Failures of the editor core.
#[derive(Debug, Clone, Copy, PartialEq, Eq, Structural)]
pub enum CastError {
    InvalidHexFormat,
    InvalidColorComponent,
    InvalidPaletteFormat,
    InvalidEventFormat,
    /// The header's version field is not 2.
    InvalidVersion,
    SerializationError,
    DeserializationError,
    IoError,
    JsonError,
    Utf8Error,
    FileSystemError,
    MmapError,
    /// An added event's time does not lie strictly between its neighbors.
    TimingError,
    /// A data modification addressed a chain index that does not exist.
    ModificationError,
    /// An addition was requested without the neighbor needed to check times.
    UnverifiableTime,
}

impl CastError {
    /// A short description, in place of a `Display` implementation.
    pub fn describe(&self) -> &'static str {
        match self {
            CastError::InvalidHexFormat => "invalid hex color format",
            CastError::InvalidColorComponent => "invalid color component",
            CastError::InvalidPaletteFormat => "invalid palette format",
            CastError::InvalidEventFormat => "invalid event format",
            CastError::InvalidVersion => "only version 2 cast files are supported",
            CastError::SerializationError => "serialization error",
            CastError::DeserializationError => "deserialization error",
            CastError::IoError => "io error",
            CastError::JsonError => "json error",
            CastError::Utf8Error => "utf-8 conversion error",
            CastError::FileSystemError => "file system error",
            CastError::MmapError => "memory mapping error",
            CastError::TimingError => "event timing must lie between the neighboring events",
            CastError::ModificationError => "the modification order is out of bounds",
            CastError::UnverifiableTime => "no contextualizing event was passed in",
        }
    }
}

} // verus!
