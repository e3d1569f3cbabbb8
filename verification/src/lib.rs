//! A cache of blob images: serialized drawing command buffers, kept one per
//! image key, that can be partially re-recorded along a dirty rectangle and
//! whose rasterization is dispatched to workers and collected out of order.
//!
//! - [`wire`]: the fixed-width integers of the buffer format.
//! - [`geometry`]: boxes, rectangles, and how a box lies to a dirty
//!   rectangle.
//! - [`keys`]: the keys of images, fonts and requests.
//! - [`buffer`]: the command buffer, its reader and its writer.
//! - [`merge`]: the merge of a partial re-recording into a command buffer.
//! - [`fonts`]: the fonts that a command buffer refers to.
//! - [`renderer`]: the store of command buffers and the record of requests.
//!
//! Nothing here blocks, spawns or calls native code: a request hands out a
//! job, and resolving says whether to wait. Driving the workers and the
//! rasterizer is left to the caller.

pub mod buffer;
pub mod fonts;
pub mod geometry;
pub mod keys;
pub mod merge;
pub mod renderer;
pub mod wire;
