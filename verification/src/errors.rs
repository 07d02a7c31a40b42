use vstd::prelude::*;

verus! {

/// The ways a pipeline invocation can fail.
///
/// Every stage of the pipeline is a pure transformation; a failure aborts the
/// whole invocation and no partial output is produced.
#[derive(Clone, Copy, Debug, PartialEq, Eq, Structural)]
pub enum LineError {
    /// The image has zero width or zero height, so no row profile exists.
    InvalidImage,
    /// The thresholder was handed a profile with no rows.
    EmptyProfile,
    /// Binarization marked no row as text, so there is nothing to extract.
    NoBlocksFound,
    /// A padded crop interval reaches past the last image row.
    OutOfBoundsCrop,
    /// A smoothed brightness value does not fit in a machine word.
    ArithmeticOverflow,
}

impl LineError {
    /// A short human-readable description of the failure.
    pub fn describe(&self) -> (r: &'static str)
        ensures
            r@ =~= self.describe_spec(),
    {
        match self {
            LineError::InvalidImage => "image has zero width or height",
            LineError::EmptyProfile => "brightness profile is empty",
            LineError::NoBlocksFound => "no text blocks were found",
            LineError::OutOfBoundsCrop => "a crop interval reaches past the image",
            LineError::ArithmeticOverflow => "smoothed brightness overflowed",
        }
    }

    /// What `describe` returns for each variant.
    pub open spec fn describe_spec(&self) -> Seq<char> {
        match self {
            LineError::InvalidImage => "image has zero width or height"@,
            LineError::EmptyProfile => "brightness profile is empty"@,
            LineError::NoBlocksFound => "no text blocks were found"@,
            LineError::OutOfBoundsCrop => "a crop interval reaches past the image"@,
            LineError::ArithmeticOverflow => "smoothed brightness overflowed"@,
        }
    }
}

} // verus!
