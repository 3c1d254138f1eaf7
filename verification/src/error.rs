use vstd::prelude::*;

verus! {

/// The ways in which decoding a symbol can fail.
#[derive(Debug, Copy, Clone, PartialEq, Eq, Structural)]
pub enum DecodeError {
    /// The grid size is not of the form `4 * version + 17`.
    InvalidGridSize,
    /// The version lies outside `1..=40`.
    InvalidVersion,
    /// A codeword block could not be corrected.
    DataEcc,
    /// The format word could not be corrected at either of its locations.
    FormatEcc,
    /// Reserved: an unknown mode indicator ends the stream instead.
    UnknownDataType,
    /// A segment declares more bytes than the payload may hold.
    DataOverflow,
    /// A segment declares more bits than the codeword stream holds.
    DataUnderflow,
}

impl DecodeError {
    /// The text of the message of `self`.
    pub open spec fn spec_message(self) -> Seq<char> {
        match self {
            DecodeError::InvalidGridSize => "Invalid grid size"@,
            DecodeError::InvalidVersion => "Invalid version"@,
            DecodeError::DataEcc => "Format data ECC failure"@,
            DecodeError::FormatEcc => "ECC failure"@,
            DecodeError::UnknownDataType => "Unknown data type"@,
            DecodeError::DataOverflow => "Data overflow"@,
            DecodeError::DataUnderflow => "Data underflow"@,
        }
    }

    /// A short human-readable description of the error.
    pub fn message(&self) -> (s: &'static str)
        ensures
            s@ == self.spec_message(),
    {
        match self {
            DecodeError::InvalidGridSize => "Invalid grid size",
            DecodeError::InvalidVersion => "Invalid version",
            DecodeError::DataEcc => "Format data ECC failure",
            DecodeError::FormatEcc => "ECC failure",
            DecodeError::UnknownDataType => "Unknown data type",
            DecodeError::DataOverflow => "Data overflow",
            DecodeError::DataUnderflow => "Data underflow",
        }
    }

    /// The description of the error as an owned string.
    pub fn to_string(&self) -> (s: String)
        ensures
            s@ == self.spec_message(),
    {
        self.message().to_owned()
    }
}


/// The ways in which taking a code out of the workspace can fail.
#[derive(Debug, Copy, Clone, PartialEq, Eq, Structural)]
pub enum ExtractError {
    /// The workspace holds no grid of that index.
    OutOfBounds,
}

} // verus!
