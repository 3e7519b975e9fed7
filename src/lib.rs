//! Integer side of a tiled, multi-sampled sphere ray tracer: the tile
//! grid over the frame, the jitter cursor and per-tile sample plan, the
//! averaging and packing of samples into pixels, the merge of finished
//! tiles into the frame, and the decisions of the recursive trace that
//! do not depend on floating-point values.
pub mod pixel;
pub mod sampling;
pub mod tiles;
pub mod trace;
