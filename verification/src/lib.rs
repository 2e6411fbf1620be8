//! Grid bookkeeping and stream-format handling for streaming point-cloud
//! processing: points are counted per grid cell in one pass, and in a later
//! pass each cell is finalised as soon as its last point has been seen.
pub mod text;
pub mod grid;
pub mod sprinkle;
pub mod finalise;
pub mod stream;
