use vstd::prelude::*;

verus! {

/// Why a step of the mask pipeline refused its input.
#[derive(Debug, Clone, Copy, PartialEq, Eq, Structural)]
pub enum PipelineError {
    /// A label has no `_` between its name and its group index.
    MissingLabelSeparator,
    /// The text after the first `_` of a label is not a decimal index.
    InvalidLabelIndex,
    /// Two outer contours carry the same group index.
    DuplicateOuter { idx: usize },
    /// A group of contours has no outer contour.
    MissingOuter { idx: usize },
    /// The outer contour of a crop has no points.
    EmptyOuterContour,
    /// No gradient mask was built for the group of a crop.
    MissingGradient { idx: usize },
    /// A crop does not lie inside the image it is pasted on.
    CropOutOfBounds { idx: usize },
    /// The embedded image data is not valid base64.
    InvalidImageData,
    /// The image path cannot be resolved next to the annotation file.
    ImagePathUnresolved,
    /// The annotation names neither embedded image data nor an image path.
    NoImageSource,
}

} // verus!
