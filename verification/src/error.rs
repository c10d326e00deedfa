//! Why a call was refused.

use vstd::prelude::*;

verus! {

/// The part of a configuration that cannot be worked with.
#[derive(Clone, Copy, Debug, PartialEq, Eq, Structural)]
pub enum ConfigurationFault {
    /// The window size is zero or odd, or window and padding together do not
    /// fit the machine's word.
    WindowSize,
    /// No worker was asked for.
    ThreadCount,
    /// The bin range is not a range of rows of the matrix.
    BinRange,
    /// The byte buffer is shorter than the picture that the bin range describes.
    BufferLength,
    /// The lower end of the intensity range is not less than the upper end.
    IntensityRange,
    /// The matrix has more rows than the transform has bins, or its storage
    /// does not hold `width * height` cells.
    MatrixShape,
}

/// Why an analysis, a synthesis or a picture did not come about.
#[derive(Clone, Copy, Debug, PartialEq, Eq, Structural)]
pub enum SpectrogramError {
    /// Found before any work was started.
    InvalidConfiguration(ConfigurationFault),
    /// The transform handed in by the caller gave nothing for this column, or
    /// a result of the wrong length. Nothing of the work done so far is
    /// returned.
    TransformFailed { column: usize },
}

} // verus!
