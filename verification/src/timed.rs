use vstd::prelude::*;

verus! {

/// Something that happens at an exact position on the audio sample clock.
#[derive(Clone, Copy, Debug, PartialEq)]
pub struct Timed<K> {
    /// Absolute position on the audio sample clock.
    pub sample: u64,
    /// What happens.
    pub kind: K,
}

} // verus!
