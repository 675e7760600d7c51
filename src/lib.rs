//! Image processing for a wallpaper daemon: a delta codec for pixel buffers,
//! fade transitions, resizing to an output, and the decisions that workers
//! and their coordinator take while frames are streamed.

use vstd::prelude::*;

pub mod client;
pub mod codec;
pub mod resize;
pub mod transition;
pub mod worker;

verus! {

} // verus!
