//! Workgroup sizes of the GPU pipeline that the packed scene is laid out for.

use vstd::prelude::*;

verus! {

/// Workgroup size of the path tag reduction; the path tag stream is padded to
/// a multiple of four times this many bytes.
pub const PATH_REDUCE_WG: u32 = 256;

} // verus!
