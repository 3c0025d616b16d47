//! Decisions taken while measuring the input audio.

use vstd::prelude::*;

verus! {

/// Frames to measure the song length by: the container's frame count when it
/// advertises a nonzero one (the most accurate), else the frames decoded.
pub fn frames_for_length(declared: Option<u64>, decoded: u64) -> (frames: u64)
    ensures
        frames == match declared {
            Some(n) if n > 0 => n,
            _ => decoded,
        },
{
    match declared {
        Some(n) if n > 0 => n,
        _ => decoded,
    }
}

} // verus!
