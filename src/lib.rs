//! Decoding of an object detector's score tensor into boxes, with a
//! confidence filter and class-wise non-maximum suppression.
//!
//! Floats travel through the library as their 32-bit patterns; geometry is
//! rounded to integers once, and every comparison is made exactly.
pub mod bbox;
pub mod error;
pub mod float_bits;
pub mod iou;
pub mod matrix;
pub mod nms;
pub mod pipeline;
