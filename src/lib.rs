//! Responsive grid packing: items with an aspect ratio are sized in grid
//! cells, packed first-fit into one grid per column count, and handed back
//! as rectangular placements.
use vstd::prelude::*;

pub mod geometry;
pub mod ratio;
pub mod grid;
pub mod packing;
pub mod regions;
pub mod photo_grid;
pub mod parse;
pub mod photo_data;
pub mod search;

pub use geometry::{AspectRatio, Coord, Dimension, Intersect, Orientation, Size};
pub use ratio::{FromAspectRatio, NormalizedAspectRatio, RoundedAspectRatio, Rounding};
pub use grid::{Grid, Neighbours};
pub use regions::{GridContent, GridVisitor};
pub use photo_grid::{PhotoGrid, ResponsivePhotoGrid};
pub use parse::ParseError;
pub use photo_data::{PhotoLayoutData, SrcSet};
pub use search::SearchFilter;

verus! {

} // verus!
