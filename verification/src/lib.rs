//! Contour bookkeeping for building soft segmentation masks from labelled
//! images: label parsing, contour grouping and cropping, contour cleaning,
//! left/right splitting of crops, tensor placement and output naming.

pub mod configuration;
pub mod error;
pub mod gradient;
pub mod listing;
pub mod loader;
pub mod output;
pub mod pipeline;
pub mod preprocess;
pub mod spline;
pub mod split;
pub mod text;
pub mod types;
