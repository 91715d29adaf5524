use vstd::prelude::*;

verus! {

/// Container formats an input file may carry and the output may be encoded in.
/// `Unspecified` marks "no explicit choice"; it is never the format of a
/// selected candidate file.
#[derive(Clone, Copy, Debug, PartialEq, Eq, Structural)]
pub enum ImageFormat {
    Jpeg,
    Png,
    Gif,
    Bmp,
    Unspecified,
}

/// How the selected images are arranged on the canvas. Absence of an explicit
/// horizontal or vertical request means a near-square grid.
#[derive(Clone, Copy, Debug, PartialEq, Eq, Structural)]
pub enum AlignmentMode {
    Horizontal,
    Vertical,
    Grid,
}

/// Primary ordering applied to the candidate files before truncation.
#[derive(Clone, Copy, Debug, PartialEq, Eq, Structural)]
pub enum SortOrder {
    Newest,
    AscendingName,
    DescendingName,
}

/// Failures of the selection-and-layout engine. Each is terminal for the run.
#[derive(Clone, Copy, Debug, PartialEq, Eq, Structural)]
pub enum StitchError {
    /// The directory held no file with a supported image extension.
    NoFilesFound,
    /// Fewer supported files were found than were requested.
    InsufficientFiles { found: usize, requested: usize },
    /// The layout engine was handed an empty list of images.
    EmptyInput,
    /// Every candidate output name up to the suffix cap is already taken.
    PathExhaustion,
    /// The composited canvas would not fit in an in-memory byte buffer.
    OutputTooLarge,
}

} // verus!
