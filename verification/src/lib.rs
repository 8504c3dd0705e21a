//! Verified core of the player5 drum machine: the voice set and parameter
//! addresses, the step notation of patterns, the fixed-capacity event ring
//! between the control and render threads, the renderer's time-ordered
//! pending list, the scheduler's transport decisions and the PCM hash used
//! by the golden masters. Everything that computes with audio samples, tempo
//! or velocities in floating point lives in the shell around this crate.

pub mod voice;
pub mod defaults;
pub mod event;
pub mod fnv;
pub mod onset;
pub mod pattern;
pub mod ring;
pub mod timed;
pub mod transport;
pub mod pending;
