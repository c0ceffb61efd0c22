use vstd::prelude::*;

verus! {

/// The layout of the audio a device consumes or a source produces:
/// how many interleaved channels there are and how many frames per second.
#[derive(Debug, Clone, Copy)]
pub struct AudioFormat {
    pub channels: u16,
    pub sample_rate: u32,
}

impl AudioFormat {
    /// Builds a format from its channel count and sample rate.
    pub fn new(channels: u16, sample_rate: u32) -> (f: AudioFormat)
        ensures
            f.channels == channels,
            f.sample_rate == sample_rate,
    {
        AudioFormat { channels, sample_rate }
    }
}

} // verus!
