//! Verified integer core of an offline path tracer.
//!
//! The tracer's geometry and light transport are floating-point work and
//! live with the program that uses this library. What is proved here is
//! everything around them that is made of whole numbers:
//!
//! - `random`: the xorshift generator that drives all sampling, and the bit
//!   patterns from which random fractions are made;
//! - `math`: clamping of ordered values;
//! - `color`: eight-bit colours and their layout in a byte buffer;
//! - `grid`, `tile`, `partition`: the square tiles that cut an image into
//!   independent pieces of work, each with a buffer and a generator of its
//!   own, and the proof that they cover the image exactly;
//! - `frame`: the finished image, and how the tiles are joined into it.

pub mod color;
pub mod frame;
pub mod grid;
pub mod math;
pub mod partition;
pub mod random;
pub mod tile;
