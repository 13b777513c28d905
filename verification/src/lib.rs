//! Fractal image compression: block geometry, quadtree partitions, and the
//! packed bit formats in which compressed images are stored.
pub mod bitseq;
pub mod decompression;
pub mod prelude;
pub mod naive;
pub mod quadtree;
pub mod smoothen;
pub mod worst_case;
