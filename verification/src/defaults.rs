use vstd::prelude::*;

verus! {

/// Pattern repetitions an offline render plays when the file names none.
pub fn default_bars() -> (bars: u32)
    ensures
        bars == 2,
{
    2
}

/// Output sample rate of an offline render when the file names none.
pub fn default_sample_rate() -> (rate: u32)
    ensures
        rate == 48_000,
{
    48_000
}

/// Block size used when stepping the engine offline when the file names
/// none.
pub fn default_block_size() -> (frames: usize)
    ensures
        frames == 256,
{
    256
}

} // verus!
